//! The join picture is one text per run: the relation that states it fixes every list of the graph
//! up to the values the document reads, so any two graphs of one run draw the same document. And
//! since only the sources read the trees, a reordering of trees with distinct ids draws the same
//! document too.
use vstd::prelude::*;

use super::collect::{count_is, BucketCount};
use super::mermaid::{
    arrow_line, arrows_text, census_line, census_lines, document, hidden, members, members_text, notes, position,
    subgraph_text, subgraphs_text, truncated,
};
use super::model::{role_rank, GraphEdge, JoinAnalysis, Role};
use super::picture::{
    arrow_contribs, av, censuses, gathers, graph_of, ids_distinct, law_picture_ignores_tree_order, last_zero, listed,
    lists_sources, merges, named_in, node_contribs, node_in, nv, sources_of, ArrowV, DrawnNode, JoinGraph, NodeV,
    SourceRow,
};
use crate::sort::{strictly_sorted, Ranked};

verus! {

/// The values of a source row the document reads.
pub open spec fn srcvs(s: Seq<SourceRow>) -> Seq<(Seq<char>, bool)> {
    s.map_values(|r: SourceRow| (r.source@, r.zero))
}

/// The values of a drawn node the document reads.
pub open spec fn dnvs(s: Seq<DrawnNode>) -> Seq<(NodeV, Role)> {
    s.map_values(|d: DrawnNode| (nv(d.key), d.role))
}

/// The values of the arrows.
pub open spec fn avs(s: Seq<GraphEdge>) -> Seq<ArrowV> {
    s.map_values(|e: GraphEdge| av(e))
}

/// The values of a bucket census.
pub open spec fn cvs(s: Seq<BucketCount>) -> Seq<(Seq<char>, usize, usize, usize, usize, usize)> {
    s.map_values(|c: BucketCount| (c.bucket@, c.rows, c.total, c.in_scope, c.shown, c.unlabelable))
}

proof fn lemma_sources_unique(a: Seq<SourceRow>, b: Seq<SourceRow>)
    requires
        strictly_sorted(a),
        strictly_sorted(b),
        forall|k: (Seq<char>, bool)| srcvs(a).contains(k) <==> srcvs(b).contains(k),
    ensures
        srcvs(a) == srcvs(b),
    decreases a.len(),
{
    if a.len() == 0 {
        if b.len() > 0 {
            assert(srcvs(b).contains(srcvs(b)[0]));
        }
        assert(srcvs(a) =~= srcvs(b));
    } else {
        let x = srcvs(a)[0];
        assert(srcvs(b).contains(x));
        let j = choose|j: int| 0 <= j < srcvs(b).len() && srcvs(b)[j] == x;
        let y = srcvs(b)[0];
        assert(srcvs(a).contains(y));
        let i = choose|i: int| 0 <= i < srcvs(a).len() && srcvs(a)[i] == y;
        if j > 0 && i > 0 {
            assert(b[0].before(b[j]));
            assert(a[0].before(a[i]));
            SourceRow::lemma_order(a[0], b[0], a[0]);
        }
        assert(x == y);
        let a1 = a.drop_first();
        let b1 = b.drop_first();
        assert(srcvs(a1) =~= srcvs(a).drop_first());
        assert(srcvs(b1) =~= srcvs(b).drop_first());
        assert forall|z: (Seq<char>, bool)| srcvs(a1).contains(z) <==> srcvs(b1).contains(z) by {
            if srcvs(a1).contains(z) {
                let k = choose|k: int| 0 <= k < srcvs(a1).len() && srcvs(a1)[k] == z;
                assert(srcvs(a)[k + 1] == z);
                assert(a[0].before(a[k + 1]));
                SourceRow::lemma_order(a[0], a[0], a[0]);
                assert(srcvs(a).contains(z));
                let m = choose|m: int| 0 <= m < srcvs(b).len() && srcvs(b)[m] == z;
                assert(m != 0);
                assert(srcvs(b1)[m - 1] == z);
            }
            if srcvs(b1).contains(z) {
                let k = choose|k: int| 0 <= k < srcvs(b1).len() && srcvs(b1)[k] == z;
                assert(srcvs(b)[k + 1] == z);
                assert(b[0].before(b[k + 1]));
                SourceRow::lemma_order(b[0], b[0], b[0]);
                assert(srcvs(b).contains(z));
                let m = choose|m: int| 0 <= m < srcvs(a).len() && srcvs(a)[m] == z;
                assert(m != 0);
                assert(srcvs(a1)[m - 1] == z);
            }
        }
        lemma_sources_unique(a1, b1);
        assert forall|k: int| 0 <= k < srcvs(a).len() implies srcvs(a)[k] == srcvs(b)[k] by {
            if k > 0 {
                assert(srcvs(a)[k] == srcvs(a1)[k - 1]);
                assert(srcvs(b)[k] == srcvs(b1)[k - 1]);
            }
        }
        assert(srcvs(a) =~= srcvs(b));
    }
}

proof fn lemma_nodes_unique(a: Seq<DrawnNode>, b: Seq<DrawnNode>)
    requires
        strictly_sorted(a),
        strictly_sorted(b),
        forall|k: (NodeV, Role)| dnvs(a).contains(k) <==> dnvs(b).contains(k),
    ensures
        dnvs(a) == dnvs(b),
    decreases a.len(),
{
    if a.len() == 0 {
        if b.len() > 0 {
            assert(dnvs(b).contains(dnvs(b)[0]));
        }
        assert(dnvs(a) =~= dnvs(b));
    } else {
        let x = dnvs(a)[0];
        assert(dnvs(b).contains(x));
        let j = choose|j: int| 0 <= j < dnvs(b).len() && dnvs(b)[j] == x;
        let y = dnvs(b)[0];
        assert(dnvs(a).contains(y));
        let i = choose|i: int| 0 <= i < dnvs(a).len() && dnvs(a)[i] == y;
        if j > 0 && i > 0 {
            assert(b[0].before(b[j]));
            assert(a[0].before(a[i]));
            DrawnNode::lemma_order(a[0], b[0], a[0]);
        }
        assert(x == y);
        let a1 = a.drop_first();
        let b1 = b.drop_first();
        assert(dnvs(a1) =~= dnvs(a).drop_first());
        assert(dnvs(b1) =~= dnvs(b).drop_first());
        assert forall|z: (NodeV, Role)| dnvs(a1).contains(z) <==> dnvs(b1).contains(z) by {
            if dnvs(a1).contains(z) {
                let k = choose|k: int| 0 <= k < dnvs(a1).len() && dnvs(a1)[k] == z;
                assert(dnvs(a)[k + 1] == z);
                assert(a[0].before(a[k + 1]));
                DrawnNode::lemma_order(a[0], a[0], a[0]);
                assert(dnvs(a).contains(z));
                let m = choose|m: int| 0 <= m < dnvs(b).len() && dnvs(b)[m] == z;
                assert(m != 0);
                assert(dnvs(b1)[m - 1] == z);
            }
            if dnvs(b1).contains(z) {
                let k = choose|k: int| 0 <= k < dnvs(b1).len() && dnvs(b1)[k] == z;
                assert(dnvs(b)[k + 1] == z);
                assert(b[0].before(b[k + 1]));
                DrawnNode::lemma_order(b[0], b[0], b[0]);
                assert(dnvs(b).contains(z));
                let m = choose|m: int| 0 <= m < dnvs(a).len() && dnvs(a)[m] == z;
                assert(m != 0);
                assert(dnvs(a1)[m - 1] == z);
            }
        }
        lemma_nodes_unique(a1, b1);
        assert forall|k: int| 0 <= k < dnvs(a).len() implies dnvs(a)[k] == dnvs(b)[k] by {
            if k > 0 {
                assert(dnvs(a)[k] == dnvs(a1)[k - 1]);
                assert(dnvs(b)[k] == dnvs(b1)[k - 1]);
            }
        }
        assert(dnvs(a) =~= dnvs(b));
    }
}

proof fn lemma_arrows_unique(a: Seq<GraphEdge>, b: Seq<GraphEdge>)
    requires
        strictly_sorted(a),
        strictly_sorted(b),
        forall|k: ArrowV| avs(a).contains(k) <==> avs(b).contains(k),
    ensures
        avs(a) == avs(b),
    decreases a.len(),
{
    if a.len() == 0 {
        if b.len() > 0 {
            assert(avs(b).contains(avs(b)[0]));
        }
        assert(avs(a) =~= avs(b));
    } else {
        let x = avs(a)[0];
        assert(avs(b).contains(x));
        let j = choose|j: int| 0 <= j < avs(b).len() && avs(b)[j] == x;
        let y = avs(b)[0];
        assert(avs(a).contains(y));
        let i = choose|i: int| 0 <= i < avs(a).len() && avs(a)[i] == y;
        if j > 0 && i > 0 {
            assert(b[0].before(b[j]));
            assert(a[0].before(a[i]));
            GraphEdge::lemma_order(a[0], b[0], a[0]);
        }
        assert(x == y);
        let a1 = a.drop_first();
        let b1 = b.drop_first();
        assert(avs(a1) =~= avs(a).drop_first());
        assert(avs(b1) =~= avs(b).drop_first());
        assert forall|z: ArrowV| avs(a1).contains(z) <==> avs(b1).contains(z) by {
            if avs(a1).contains(z) {
                let k = choose|k: int| 0 <= k < avs(a1).len() && avs(a1)[k] == z;
                assert(avs(a)[k + 1] == z);
                assert(a[0].before(a[k + 1]));
                GraphEdge::lemma_order(a[0], a[0], a[0]);
                assert(avs(a).contains(z));
                let m = choose|m: int| 0 <= m < avs(b).len() && avs(b)[m] == z;
                assert(m != 0);
                assert(avs(b1)[m - 1] == z);
            }
            if avs(b1).contains(z) {
                let k = choose|k: int| 0 <= k < avs(b1).len() && avs(b1)[k] == z;
                assert(avs(b)[k + 1] == z);
                assert(b[0].before(b[k + 1]));
                GraphEdge::lemma_order(b[0], b[0], b[0]);
                assert(avs(b).contains(z));
                let m = choose|m: int| 0 <= m < avs(a).len() && avs(a)[m] == z;
                assert(m != 0);
                assert(avs(a1)[m - 1] == z);
            }
        }
        lemma_arrows_unique(a1, b1);
        assert forall|k: int| 0 <= k < avs(a).len() implies avs(a)[k] == avs(b)[k] by {
            if k > 0 {
                assert(avs(a)[k] == avs(a1)[k - 1]);
                assert(avs(b)[k] == avs(b1)[k - 1]);
            }
        }
        assert(avs(a) =~= avs(b));
    }
}


proof fn lemma_rank_injective(a: Role, b: Role)
    ensures
        role_rank(a) == role_rank(b) ==> a == b,
{
}

/// Two graphs of one run hold the same values in every list.
proof fn lemma_graph_values(a: JoinAnalysis, scope: Option<&str>, top: usize, g1: JoinGraph, g2: JoinGraph)
    requires
        graph_of(a, scope, top, g1),
        graph_of(a, scope, top, g2),
    ensures
        srcvs(g1.sources@) == srcvs(g2.sources@),
        dnvs(g1.nodes@) == dnvs(g2.nodes@),
        avs(g1.arrows@) == avs(g2.arrows@),
        cvs(g1.counts@) == cvs(g2.counts@),
{
    let trees = a.trees@;
    let n = trees.len() as int;
    let s1 = g1.sources@;
    let s2 = g2.sources@;
    assert forall|k: (Seq<char>, bool)| srcvs(s1).contains(k) <==> srcvs(s2).contains(k) by {
        if srcvs(s1).contains(k) {
            let i = choose|i: int| 0 <= i < srcvs(s1).len() && srcvs(s1)[i] == k;
            assert(named_in(trees, s1[i].source@, n));
            let t = choose|t: int| 0 <= t < n && #[trigger] super::picture::names(trees[t], k.0);
            assert(listed(s2, trees[t].source_id->0@));
            let p = choose|p: int| 0 <= p < s2.len() && (#[trigger] s2[p]).source@ == k.0;
            assert(srcvs(s2)[p] == k);
        }
        if srcvs(s2).contains(k) {
            let i = choose|i: int| 0 <= i < srcvs(s2).len() && srcvs(s2)[i] == k;
            assert(named_in(trees, s2[i].source@, n));
            let t = choose|t: int| 0 <= t < n && #[trigger] super::picture::names(trees[t], k.0);
            assert(listed(s1, trees[t].source_id->0@));
            let p = choose|p: int| 0 <= p < s1.len() && (#[trigger] s1[p]).source@ == k.0;
            assert(srcvs(s1)[p] == k);
        }
    }
    lemma_sources_unique(s1, s2);
    let c = node_contribs(a, scope, top);
    let m1 = g1.nodes@;
    let m2 = g2.nodes@;
    assert forall|k: (NodeV, Role)| dnvs(m1).contains(k) <==> dnvs(m2).contains(k) by {
        if dnvs(m1).contains(k) {
            let i = choose|i: int| 0 <= i < dnvs(m1).len() && dnvs(m1)[i] == k;
            assert(c.contains((nv(m1[i].key), m1[i].role)));
            let j = choose|j: int| 0 <= j < c.len() && c[j] == (nv(m1[i].key), m1[i].role);
            assert(node_in(m2, c[j].0));
            let p = choose|p: int| 0 <= p < m2.len() && nv((#[trigger] m2[p]).key) == c[j].0;
            assert(c.contains((nv(m2[p].key), m2[p].role)));
            let j2 = choose|j2: int| 0 <= j2 < c.len() && c[j2] == (nv(m2[p].key), m2[p].role);
            assert(role_rank(m2[p].role) <= role_rank(c[j].1));
            assert(role_rank(m1[i].role) <= role_rank(c[j2].1));
            lemma_rank_injective(m1[i].role, m2[p].role);
            assert(dnvs(m2)[p] == k);
        }
        if dnvs(m2).contains(k) {
            let i = choose|i: int| 0 <= i < dnvs(m2).len() && dnvs(m2)[i] == k;
            assert(c.contains((nv(m2[i].key), m2[i].role)));
            let j = choose|j: int| 0 <= j < c.len() && c[j] == (nv(m2[i].key), m2[i].role);
            assert(node_in(m1, c[j].0));
            let p = choose|p: int| 0 <= p < m1.len() && nv((#[trigger] m1[p]).key) == c[j].0;
            assert(c.contains((nv(m1[p].key), m1[p].role)));
            let j2 = choose|j2: int| 0 <= j2 < c.len() && c[j2] == (nv(m1[p].key), m1[p].role);
            assert(role_rank(m1[p].role) <= role_rank(c[j].1));
            assert(role_rank(m2[i].role) <= role_rank(c[j2].1));
            lemma_rank_injective(m2[i].role, m1[p].role);
            assert(dnvs(m1)[p] == k);
        }
    }
    lemma_nodes_unique(m1, m2);
    let ac = arrow_contribs(a, scope, top);
    let e1 = g1.arrows@;
    let e2 = g2.arrows@;
    assert forall|k: ArrowV| avs(e1).contains(k) <==> avs(e2).contains(k) by {
        if avs(e1).contains(k) {
            let i = choose|i: int| 0 <= i < avs(e1).len() && avs(e1)[i] == k;
            assert(ac.contains(av(e1[i])));
            let j = choose|j: int| 0 <= j < ac.len() && ac[j] == k;
            assert(super::picture::arrow_in(e2, ac[j]));
            let p = choose|p: int| 0 <= p < e2.len() && av(#[trigger] e2[p]) == ac[j];
            assert(avs(e2)[p] == k);
        }
        if avs(e2).contains(k) {
            let i = choose|i: int| 0 <= i < avs(e2).len() && avs(e2)[i] == k;
            assert(ac.contains(av(e2[i])));
            let j = choose|j: int| 0 <= j < ac.len() && ac[j] == k;
            assert(super::picture::arrow_in(e1, ac[j]));
            let p = choose|p: int| 0 <= p < e1.len() && av(#[trigger] e1[p]) == ac[j];
            assert(avs(e1)[p] == k);
        }
    }
    lemma_arrows_unique(e1, e2);
    assert(cvs(g1.counts@) =~= cvs(g2.counts@));
}

proof fn lemma_census_lines_same(c1: Seq<BucketCount>, c2: Seq<BucketCount>, n: int)
    requires
        cvs(c1) == cvs(c2),
        n <= c1.len(),
    ensures
        census_lines(c1, n) == census_lines(c2, n),
        truncated(c1, n) == truncated(c2, n),
        hidden(c1, n) == hidden(c2, n),
    decreases n,
{
    if n > 0 {
        lemma_census_lines_same(c1, c2, n - 1);
        assert(cvs(c1).len() == c1.len() && cvs(c2).len() == c2.len());
        let x = c1[n - 1];
        let y = c2[n - 1];
        assert(cvs(c1)[n - 1] == (x.bucket@, x.rows, x.total, x.in_scope, x.shown, x.unlabelable));
        assert(cvs(c2)[n - 1] == (y.bucket@, y.rows, y.total, y.in_scope, y.shown, y.unlabelable));
        assert(cvs(c1)[n - 1] == cvs(c2)[n - 1]);
        assert(census_line(x) == census_line(y));
    }
}

proof fn lemma_members_same(m1: Seq<DrawnNode>, m2: Seq<DrawnNode>, src: Seq<char>, j: int)
    requires
        dnvs(m1) == dnvs(m2),
        j <= m1.len(),
    ensures
        members_text(m1, src, j) == members_text(m2, src, j),
        members(m1, src, j) == members(m2, src, j),
    decreases j,
{
    if j > 0 {
        lemma_members_same(m1, m2, src, j - 1);
        assert(dnvs(m1).len() == m1.len() && dnvs(m2).len() == m2.len());
        assert(dnvs(m1)[j - 1] == (nv(m1[j - 1].key), m1[j - 1].role));
        assert(dnvs(m2)[j - 1] == (nv(m2[j - 1].key), m2[j - 1].role));
        assert(dnvs(m1)[j - 1] == dnvs(m2)[j - 1]);
        assert(m1[j - 1].key.source@ == m2[j - 1].key.source@);
        assert(super::mermaid::node_line((j - 1) as nat, m1[j - 1]) == super::mermaid::node_line((j - 1) as nat, m2[j - 1]));
    }
}

proof fn lemma_position_same(m1: Seq<DrawnNode>, m2: Seq<DrawnNode>, k: NodeV, j: int)
    requires
        dnvs(m1) == dnvs(m2),
        j <= m1.len(),
    ensures
        position(m1, k, j) == position(m2, k, j),
    decreases j,
{
    if j > 0 {
        lemma_position_same(m1, m2, k, j - 1);
        assert(dnvs(m1).len() == m1.len() && dnvs(m2).len() == m2.len());
        assert(dnvs(m1)[j - 1] == (nv(m1[j - 1].key), m1[j - 1].role));
        assert(dnvs(m2)[j - 1] == (nv(m2[j - 1].key), m2[j - 1].role));
        assert(dnvs(m1)[j - 1] == dnvs(m2)[j - 1]);
    }
}

proof fn lemma_subgraphs_same(s1: Seq<SourceRow>, s2: Seq<SourceRow>, m1: Seq<DrawnNode>, m2: Seq<DrawnNode>, n: int)
    requires
        srcvs(s1) == srcvs(s2),
        dnvs(m1) == dnvs(m2),
        n <= s1.len(),
    ensures
        subgraphs_text(s1, m1, n) == subgraphs_text(s2, m2, n),
    decreases n,
{
    if n > 0 {
        lemma_subgraphs_same(s1, s2, m1, m2, n - 1);
        assert(srcvs(s1).len() == s1.len() && srcvs(s2).len() == s2.len());
        assert(srcvs(s1)[n - 1] == (s1[n - 1].source@, s1[n - 1].zero));
        assert(srcvs(s2)[n - 1] == (s2[n - 1].source@, s2[n - 1].zero));
        assert(srcvs(s1)[n - 1] == srcvs(s2)[n - 1]);
        let src = s1[n - 1].source@;
        assert(dnvs(m1).len() == m1.len() && dnvs(m2).len() == m2.len());
        lemma_members_same(m1, m2, src, m1.len() as int);
        assert(subgraph_text((n - 1) as nat, s1[n - 1], m1) == subgraph_text((n - 1) as nat, s2[n - 1], m2));
    }
}

proof fn lemma_arrows_text_same(m1: Seq<DrawnNode>, m2: Seq<DrawnNode>, e1: Seq<GraphEdge>, e2: Seq<GraphEdge>, q: int)
    requires
        dnvs(m1) == dnvs(m2),
        avs(e1) == avs(e2),
        q <= e1.len(),
    ensures
        arrows_text(m1, e1, q) == arrows_text(m2, e2, q),
    decreases q,
{
    if q > 0 {
        lemma_arrows_text_same(m1, m2, e1, e2, q - 1);
        assert(avs(e1).len() == e1.len() && avs(e2).len() == e2.len());
        let x = e1[q - 1];
        let y = e2[q - 1];
        assert(avs(e1)[q - 1] == av(x));
        assert(avs(e2)[q - 1] == av(y));
        assert(av(x) == av(y));
        assert(dnvs(m1).len() == m1.len() && dnvs(m2).len() == m2.len());
        lemma_position_same(m1, m2, nv(x.from), m1.len() as int);
        lemma_position_same(m1, m2, nv(x.to), m1.len() as int);
        assert(arrow_line(m1, x) == arrow_line(m2, y));
    }
}

/// The join picture relation fixes one document: any two graphs of the same run, scope and cap
/// draw the same text.
pub proof fn law_join_document_is_determined(a: JoinAnalysis, scope: Option<&str>, top: usize, tool: Seq<char>, g1: JoinGraph, g2: JoinGraph)
    requires
        graph_of(a, scope, top, g1),
        graph_of(a, scope, top, g2),
    ensures
        document(g1, scope, top, tool) == document(g2, scope, top, tool),
{
    lemma_graph_values(a, scope, top, g1, g2);
    let c1 = g1.counts@;
    let c2 = g2.counts@;
    assert(cvs(c1).len() == c1.len() && cvs(c2).len() == c2.len());
    lemma_census_lines_same(c1, c2, c1.len() as int);
    assert(notes(c1, scope, top) == notes(c2, scope, top));
    assert(srcvs(g1.sources@).len() == g1.sources@.len());
    lemma_subgraphs_same(g1.sources@, g2.sources@, g1.nodes@, g2.nodes@, g1.sources@.len() as int);
    assert(avs(g1.arrows@).len() == g1.arrows@.len());
    lemma_arrows_text_same(g1.nodes@, g2.nodes@, g1.arrows@, g2.arrows@, g1.arrows@.len() as int);
}

/// The join document is byte-stable under any reordering of the run's trees whose source ids are
/// distinct: with the same edges and buckets, a graph of either run draws the same document as a
/// graph of the other.
pub proof fn law_join_document_ignores_tree_order(
    a1: JoinAnalysis,
    a2: JoinAnalysis,
    scope: Option<&str>,
    top: usize,
    tool: Seq<char>,
    g1: JoinGraph,
    g2: JoinGraph,
)
    requires
        a1.trees@.to_multiset() == a2.trees@.to_multiset(),
        ids_distinct(a1.trees@),
        a1.edges@ == a2.edges@,
        a1.unconsumed_provides@ == a2.unconsumed_provides@,
        a1.unprovided_consumes@ == a2.unprovided_consumes@,
        a1.unresolved_consumes@ == a2.unresolved_consumes@,
        a1.external_consumes@ == a2.external_consumes@,
        a1.ambiguous_consumes@ == a2.ambiguous_consumes@,
        graph_of(a1, scope, top, g1),
        graph_of(a2, scope, top, g2),
    ensures
        document(g1, scope, top, tool) == document(g2, scope, top, tool),
{
    law_picture_ignores_tree_order(a1, a2, scope, top, g1);
    law_join_document_is_determined(a2, scope, top, tool, g1, g2);
}


/// Two merges of contributions that hold the same (node, role) pairs draw the same nodes with the
/// same roles: each node keeps its strongest contributed role whatever order the contributions
/// came in.
pub proof fn law_merged_nodes_ignore_contribution_order(
    c1: Seq<(NodeV, Role)>,
    c2: Seq<(NodeV, Role)>,
    m1: Seq<DrawnNode>,
    m2: Seq<DrawnNode>,
)
    requires
        merges(c1, m1),
        merges(c2, m2),
        forall|k: (NodeV, Role)| c1.contains(k) <==> c2.contains(k),
    ensures
        forall|k: (NodeV, Role)| dnvs(m1).contains(k) <==> dnvs(m2).contains(k),
{
    assert forall|k: (NodeV, Role)| dnvs(m1).contains(k) implies dnvs(m2).contains(k) by {
        lemma_drawn_in_other(c1, c2, m1, m2, k);
    }
    assert forall|k: (NodeV, Role)| dnvs(m2).contains(k) implies dnvs(m1).contains(k) by {
        lemma_drawn_in_other(c2, c1, m2, m1, k);
    }
}

proof fn lemma_drawn_in_other(c1: Seq<(NodeV, Role)>, c2: Seq<(NodeV, Role)>, m1: Seq<DrawnNode>, m2: Seq<DrawnNode>, k: (NodeV, Role))
    requires
        merges(c1, m1),
        merges(c2, m2),
        forall|x: (NodeV, Role)| c1.contains(x) <==> c2.contains(x),
        dnvs(m1).contains(k),
    ensures
        dnvs(m2).contains(k),
{
    let i = choose|i: int| 0 <= i < dnvs(m1).len() && dnvs(m1)[i] == k;
    assert(c1.contains((nv(m1[i].key), m1[i].role)));
    assert(c2.contains((nv(m1[i].key), m1[i].role)));
    let j = choose|j: int| 0 <= j < c2.len() && c2[j] == (nv(m1[i].key), m1[i].role);
    assert(node_in(m2, c2[j].0));
    let p = choose|p: int| 0 <= p < m2.len() && nv((#[trigger] m2[p]).key) == c2[j].0;
    assert(c2.contains((nv(m2[p].key), m2[p].role)));
    assert(c1.contains((nv(m2[p].key), m2[p].role)));
    let j2 = choose|j2: int| 0 <= j2 < c1.len() && c1[j2] == (nv(m2[p].key), m2[p].role);
    assert(role_rank(m2[p].role) <= role_rank(c2[j].1));
    assert(role_rank(m1[i].role) <= role_rank(c1[j2].1));
    lemma_rank_injective(m1[i].role, m2[p].role);
    assert(dnvs(m2)[p] == k);
}

/// Recording two node contributions in either order draws the same nodes with the same roles.
pub proof fn law_node_calls_commute(
    c: Seq<(NodeV, Role)>,
    x: (NodeV, Role),
    y: (NodeV, Role),
    m1: Seq<DrawnNode>,
    m2: Seq<DrawnNode>,
)
    requires
        merges(c.push(x).push(y), m1),
        merges(c.push(y).push(x), m2),
    ensures
        forall|k: (NodeV, Role)| dnvs(m1).contains(k) <==> dnvs(m2).contains(k),
{
    let a = c.push(x).push(y);
    let b = c.push(y).push(x);
    assert forall|k: (NodeV, Role)| a.contains(k) <==> b.contains(k) by {
        if a.contains(k) {
            let i = choose|i: int| 0 <= i < a.len() && a[i] == k;
            if i < c.len() {
                assert(b[i] == k);
            } else if i == c.len() {
                assert(b[(c.len() + 1) as int] == k);
            } else {
                assert(b[c.len() as int] == k);
            }
        }
        if b.contains(k) {
            let i = choose|i: int| 0 <= i < b.len() && b[i] == k;
            if i < c.len() {
                assert(a[i] == k);
            } else if i == c.len() {
                assert(a[(c.len() + 1) as int] == k);
            } else {
                assert(a[c.len() as int] == k);
            }
        }
    }
    law_merged_nodes_ignore_contribution_order(a, b, m1, m2);
}

} // verus!
