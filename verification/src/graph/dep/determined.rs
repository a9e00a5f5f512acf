//! The dependency picture is one text per run: the universe a run collects and the collapse a fold
//! draws are each fixed, up to the values the document reads, by the relations that state them.
use vstd::prelude::*;

use super::folded::{box_links, box_node_list, collapse_of, cycle_box_list, Collapsed};
use super::picture::dep_picture;
use super::universe::{all_cycle_files, all_edges, all_files, ervs, files_of, keyed_in, last_reading, nodev, read_in, universe_of, DepUniverse, EdgeRow, Keyed};
use super::view::{bvs, kv, lvs, scoped_files, Link, LinkV, Node};
use super::DepTree;
use crate::graph::distinct::{lemma_sorted_texts_unique, texts};
use crate::graph::fold::Fold;
use crate::sort::{strictly_sorted, Ranked};

verus! {

/// A collected file as the picture reads it: its id and its node.
pub open spec fn keyvs(s: Seq<Keyed>) -> Seq<(Seq<char>, super::universe::NodeV)> {
    s.map_values(|k: Keyed| (k.id@, nodev(k.node)))
}

proof fn lemma_keyed_unique(a: Seq<Keyed>, b: Seq<Keyed>)
    requires
        strictly_sorted(a),
        strictly_sorted(b),
        forall|k: (Seq<char>, super::universe::NodeV)| keyvs(a).contains(k) <==> keyvs(b).contains(k),
    ensures
        keyvs(a) == keyvs(b),
    decreases a.len(),
{
    if a.len() == 0 {
        if b.len() > 0 {
            assert(keyvs(b).contains(keyvs(b)[0]));
        }
        assert(keyvs(a) =~= keyvs(b));
    } else {
        let x = keyvs(a)[0];
        assert(keyvs(b).contains(x));
        let j = choose|j: int| 0 <= j < keyvs(b).len() && keyvs(b)[j] == x;
        let y = keyvs(b)[0];
        assert(keyvs(a).contains(y));
        let i = choose|i: int| 0 <= i < keyvs(a).len() && keyvs(a)[i] == y;
        if j > 0 && i > 0 {
            assert(b[0].before(b[j]));
            assert(a[0].before(a[i]));
            Keyed::lemma_order(a[0], b[0], a[0]);
        }
        assert(x == y);
        let a1 = a.drop_first();
        let b1 = b.drop_first();
        assert(keyvs(a1) =~= keyvs(a).drop_first());
        assert(keyvs(b1) =~= keyvs(b).drop_first());
        assert forall|z: (Seq<char>, super::universe::NodeV)| keyvs(a1).contains(z) <==> keyvs(b1).contains(z) by {
            if keyvs(a1).contains(z) {
                let k = choose|k: int| 0 <= k < keyvs(a1).len() && keyvs(a1)[k] == z;
                assert(keyvs(a)[k + 1] == z);
                assert(a[0].before(a[k + 1]));
                Keyed::lemma_order(a[0], a[0], a[0]);
                assert(keyvs(a).contains(z));
                let m = choose|m: int| 0 <= m < keyvs(b).len() && keyvs(b)[m] == z;
                assert(m != 0);
                assert(keyvs(b1)[m - 1] == z);
            }
            if keyvs(b1).contains(z) {
                let k = choose|k: int| 0 <= k < keyvs(b1).len() && keyvs(b1)[k] == z;
                assert(keyvs(b)[k + 1] == z);
                assert(b[0].before(b[k + 1]));
                Keyed::lemma_order(b[0], b[0], b[0]);
                assert(keyvs(b).contains(z));
                let m = choose|m: int| 0 <= m < keyvs(a).len() && keyvs(a)[m] == z;
                assert(m != 0);
                assert(keyvs(a1)[m - 1] == z);
            }
        }
        lemma_keyed_unique(a1, b1);
        assert forall|k: int| 0 <= k < keyvs(a).len() implies keyvs(a)[k] == keyvs(b)[k] by {
            if k > 0 {
                assert(keyvs(a)[k] == keyvs(a1)[k - 1]);
                assert(keyvs(b)[k] == keyvs(b1)[k - 1]);
            }
        }
        assert(keyvs(a) =~= keyvs(b));
    }
}

proof fn lemma_edges_unique(a: Seq<EdgeRow>, b: Seq<EdgeRow>)
    requires
        strictly_sorted(a),
        strictly_sorted(b),
        forall|k: (Seq<char>, Seq<char>)| ervs(a).contains(k) <==> ervs(b).contains(k),
    ensures
        ervs(a) == ervs(b),
    decreases a.len(),
{
    if a.len() == 0 {
        if b.len() > 0 {
            assert(ervs(b).contains(ervs(b)[0]));
        }
        assert(ervs(a) =~= ervs(b));
    } else {
        let x = ervs(a)[0];
        assert(ervs(b).contains(x));
        let j = choose|j: int| 0 <= j < ervs(b).len() && ervs(b)[j] == x;
        let y = ervs(b)[0];
        assert(ervs(a).contains(y));
        let i = choose|i: int| 0 <= i < ervs(a).len() && ervs(a)[i] == y;
        if j > 0 && i > 0 {
            assert(b[0].before(b[j]));
            assert(a[0].before(a[i]));
            EdgeRow::lemma_order(a[0], b[0], a[0]);
        }
        assert(x == y);
        let a1 = a.drop_first();
        let b1 = b.drop_first();
        assert(ervs(a1) =~= ervs(a).drop_first());
        assert(ervs(b1) =~= ervs(b).drop_first());
        assert forall|z: (Seq<char>, Seq<char>)| ervs(a1).contains(z) <==> ervs(b1).contains(z) by {
            if ervs(a1).contains(z) {
                let k = choose|k: int| 0 <= k < ervs(a1).len() && ervs(a1)[k] == z;
                assert(ervs(a)[k + 1] == z);
                assert(a[0].before(a[k + 1]));
                EdgeRow::lemma_order(a[0], a[0], a[0]);
                assert(ervs(a).contains(z));
                let m = choose|m: int| 0 <= m < ervs(b).len() && ervs(b)[m] == z;
                assert(m != 0);
                assert(ervs(b1)[m - 1] == z);
            }
            if ervs(b1).contains(z) {
                let k = choose|k: int| 0 <= k < ervs(b1).len() && ervs(b1)[k] == z;
                assert(ervs(b)[k + 1] == z);
                assert(b[0].before(b[k + 1]));
                EdgeRow::lemma_order(b[0], b[0], b[0]);
                assert(ervs(b).contains(z));
                let m = choose|m: int| 0 <= m < ervs(a).len() && ervs(a)[m] == z;
                assert(m != 0);
                assert(ervs(a1)[m - 1] == z);
            }
        }
        lemma_edges_unique(a1, b1);
        assert forall|k: int| 0 <= k < ervs(a).len() implies ervs(a)[k] == ervs(b)[k] by {
            if k > 0 {
                assert(ervs(a)[k] == ervs(a1)[k - 1]);
                assert(ervs(b)[k] == ervs(b1)[k - 1]);
            }
        }
        assert(ervs(a) =~= ervs(b));
    }
}

proof fn lemma_boxes_unique(a: Seq<Node>, b: Seq<Node>)
    requires
        strictly_sorted(a),
        strictly_sorted(b),
        forall|k: super::view::NodeV| bvs(a).contains(k) <==> bvs(b).contains(k),
    ensures
        bvs(a) == bvs(b),
    decreases a.len(),
{
    if a.len() == 0 {
        if b.len() > 0 {
            assert(bvs(b).contains(bvs(b)[0]));
        }
        assert(bvs(a) =~= bvs(b));
    } else {
        let x = bvs(a)[0];
        assert(bvs(b).contains(x));
        let j = choose|j: int| 0 <= j < bvs(b).len() && bvs(b)[j] == x;
        let y = bvs(b)[0];
        assert(bvs(a).contains(y));
        let i = choose|i: int| 0 <= i < bvs(a).len() && bvs(a)[i] == y;
        if j > 0 && i > 0 {
            assert(b[0].before(b[j]));
            assert(a[0].before(a[i]));
            Node::lemma_order(a[0], b[0], a[0]);
        }
        assert(x == y);
        let a1 = a.drop_first();
        let b1 = b.drop_first();
        assert(bvs(a1) =~= bvs(a).drop_first());
        assert(bvs(b1) =~= bvs(b).drop_first());
        assert forall|z: super::view::NodeV| bvs(a1).contains(z) <==> bvs(b1).contains(z) by {
            if bvs(a1).contains(z) {
                let k = choose|k: int| 0 <= k < bvs(a1).len() && bvs(a1)[k] == z;
                assert(bvs(a)[k + 1] == z);
                assert(a[0].before(a[k + 1]));
                Node::lemma_order(a[0], a[0], a[0]);
                assert(bvs(a).contains(z));
                let m = choose|m: int| 0 <= m < bvs(b).len() && bvs(b)[m] == z;
                assert(m != 0);
                assert(bvs(b1)[m - 1] == z);
            }
            if bvs(b1).contains(z) {
                let k = choose|k: int| 0 <= k < bvs(b1).len() && bvs(b1)[k] == z;
                assert(bvs(b)[k + 1] == z);
                assert(b[0].before(b[k + 1]));
                Node::lemma_order(b[0], b[0], b[0]);
                assert(bvs(b).contains(z));
                let m = choose|m: int| 0 <= m < bvs(a).len() && bvs(a)[m] == z;
                assert(m != 0);
                assert(bvs(a1)[m - 1] == z);
            }
        }
        lemma_boxes_unique(a1, b1);
        assert forall|k: int| 0 <= k < bvs(a).len() implies bvs(a)[k] == bvs(b)[k] by {
            if k > 0 {
                assert(bvs(a)[k] == bvs(a1)[k - 1]);
                assert(bvs(b)[k] == bvs(b1)[k - 1]);
            }
        }
        assert(bvs(a) =~= bvs(b));
    }
}

proof fn lemma_links_unique(a: Seq<Link>, b: Seq<Link>)
    requires
        strictly_sorted(a),
        strictly_sorted(b),
        forall|k: LinkV| lvs(a).contains(k) <==> lvs(b).contains(k),
    ensures
        lvs(a) == lvs(b),
    decreases a.len(),
{
    if a.len() == 0 {
        if b.len() > 0 {
            assert(lvs(b).contains(lvs(b)[0]));
        }
        assert(lvs(a) =~= lvs(b));
    } else {
        let x = lvs(a)[0];
        assert(lvs(b).contains(x));
        let j = choose|j: int| 0 <= j < lvs(b).len() && lvs(b)[j] == x;
        let y = lvs(b)[0];
        assert(lvs(a).contains(y));
        let i = choose|i: int| 0 <= i < lvs(a).len() && lvs(a)[i] == y;
        if j > 0 && i > 0 {
            assert(b[0].before(b[j]));
            assert(a[0].before(a[i]));
            Link::lemma_order(a[0], b[0], a[0]);
        }
        assert(x == y);
        let a1 = a.drop_first();
        let b1 = b.drop_first();
        assert(lvs(a1) =~= lvs(a).drop_first());
        assert(lvs(b1) =~= lvs(b).drop_first());
        assert forall|z: LinkV| lvs(a1).contains(z) <==> lvs(b1).contains(z) by {
            if lvs(a1).contains(z) {
                let k = choose|k: int| 0 <= k < lvs(a1).len() && lvs(a1)[k] == z;
                assert(lvs(a)[k + 1] == z);
                assert(a[0].before(a[k + 1]));
                Link::lemma_order(a[0], a[0], a[0]);
                assert(lvs(a).contains(z));
                let m = choose|m: int| 0 <= m < lvs(b).len() && lvs(b)[m] == z;
                assert(m != 0);
                assert(lvs(b1)[m - 1] == z);
            }
            if lvs(b1).contains(z) {
                let k = choose|k: int| 0 <= k < lvs(b1).len() && lvs(b1)[k] == z;
                assert(lvs(b)[k + 1] == z);
                assert(b[0].before(b[k + 1]));
                Link::lemma_order(b[0], b[0], b[0]);
                assert(lvs(b).contains(z));
                let m = choose|m: int| 0 <= m < lvs(a).len() && lvs(a)[m] == z;
                assert(m != 0);
                assert(lvs(a1)[m - 1] == z);
            }
        }
        lemma_links_unique(a1, b1);
        assert forall|k: int| 0 <= k < lvs(a).len() implies lvs(a)[k] == lvs(b)[k] by {
            if k > 0 {
                assert(lvs(a)[k] == lvs(a1)[k - 1]);
                assert(lvs(b)[k] == lvs(b1)[k - 1]);
            }
        }
        assert(lvs(a) =~= lvs(b));
    }
}


/// Two universes of one run hold the same files, imports and cycle members, in the same order.
proof fn lemma_universe_values(trees: Seq<DepTree>, u1: DepUniverse, u2: DepUniverse)
    requires
        universe_of(trees, u1),
        universe_of(trees, u2),
    ensures
        keyvs(u1.nodes@) == keyvs(u2.nodes@),
        ervs(u1.edges@) == ervs(u2.edges@),
        texts(u1.cycle_files@) == texts(u2.cycle_files@),
        u1.cycles == u2.cycles,
        u1.mutual_outside_cycles == u2.mutual_outside_cycles,
{
    let fs = all_files(trees, trees.len() as int);
    let m1 = u1.nodes@;
    let m2 = u2.nodes@;
    assert forall|k: (Seq<char>, super::universe::NodeV)| keyvs(m1).contains(k) <==> keyvs(m2).contains(k) by {
        if keyvs(m1).contains(k) {
            let i = choose|i: int| 0 <= i < keyvs(m1).len() && keyvs(m1)[i] == k;
            assert(read_in(fs, m1[i].id@));
            let j = choose|j: int| 0 <= j < fs.len() && (#[trigger] fs[j]).0 == k.0;
            assert(keyed_in(m2, fs[j].0));
            let p = choose|p: int| 0 <= p < m2.len() && (#[trigger] m2[p]).id@ == k.0;
            assert(keyvs(m2)[p] == k);
        }
        if keyvs(m2).contains(k) {
            let i = choose|i: int| 0 <= i < keyvs(m2).len() && keyvs(m2)[i] == k;
            assert(read_in(fs, m2[i].id@));
            let j = choose|j: int| 0 <= j < fs.len() && (#[trigger] fs[j]).0 == k.0;
            assert(keyed_in(m1, fs[j].0));
            let p = choose|p: int| 0 <= p < m1.len() && (#[trigger] m1[p]).id@ == k.0;
            assert(keyvs(m1)[p] == k);
        }
    }
    lemma_keyed_unique(m1, m2);
    let n = trees.len() as int;
    assert forall|k: (Seq<char>, Seq<char>)| ervs(u1.edges@).contains(k) <==> ervs(u2.edges@).contains(k) by {
        assert(ervs(u1.edges@).contains(k) <==> all_edges(trees, n).contains(k));
        assert(ervs(u2.edges@).contains(k) <==> all_edges(trees, n).contains(k));
    }
    lemma_edges_unique(u1.edges@, u2.edges@);
    assert forall|k: Seq<char>| texts(u1.cycle_files@).contains(k) <==> texts(u2.cycle_files@).contains(k) by {
        assert(texts(u1.cycle_files@).contains(k) <==> all_cycle_files(trees, n).contains(k));
        assert(texts(u2.cycle_files@).contains(k) <==> all_cycle_files(trees, n).contains(k));
    }
    lemma_sorted_texts_unique(u1.cycle_files@, u2.cycle_files@);
}

proof fn lemma_scoped_same(k1: Seq<Keyed>, k2: Seq<Keyed>, scope: Option<&str>)
    requires
        keyvs(k1) == keyvs(k2),
    ensures
        scoped_files(k1, scope) == scoped_files(k2, scope),
    decreases k1.len(),
{
    assert(keyvs(k1).len() == k1.len() && keyvs(k2).len() == k2.len());
    if k1.len() > 0 {
        assert(keyvs(k1.drop_last()) =~= keyvs(k1).drop_last());
        assert(keyvs(k2.drop_last()) =~= keyvs(k2).drop_last());
        lemma_scoped_same(k1.drop_last(), k2.drop_last(), scope);
        let n = k1.len() - 1;
        assert(keyvs(k1)[n] == (k1[n].id@, nodev(k1[n].node)));
        assert(keyvs(k2)[n] == (k2[n].id@, nodev(k2[n].node)));
        assert(kv(k1.last()) == kv(k2.last()));
    }
}

/// Two collapses of the same files hold the same boxes, links and cycle boxes, in the same order.
proof fn lemma_collapse_values(
    fold: Fold,
    files: Seq<super::view::NodeV>,
    es: Seq<(Seq<char>, Seq<char>)>,
    cyc: Seq<Seq<char>>,
    c1: Collapsed,
    c2: Collapsed,
)
    requires
        collapse_of(fold, files, es, cyc, c1),
        collapse_of(fold, files, es, cyc, c2),
    ensures
        bvs(c1.nodes@) == bvs(c2.nodes@),
        lvs(c1.links@) == lvs(c2.links@),
        texts(c1.in_cycle@) == texts(c2.in_cycle@),
        c1.unfoldable == c2.unfoldable,
        c1.file_edges == c2.file_edges,
{
    assert forall|k: super::view::NodeV| bvs(c1.nodes@).contains(k) <==> bvs(c2.nodes@).contains(k) by {
        assert(bvs(c1.nodes@).contains(k) <==> box_node_list(fold, files).contains(k));
        assert(bvs(c2.nodes@).contains(k) <==> box_node_list(fold, files).contains(k));
    }
    lemma_boxes_unique(c1.nodes@, c2.nodes@);
    assert forall|k: LinkV| lvs(c1.links@).contains(k) <==> lvs(c2.links@).contains(k) by {
        assert(lvs(c1.links@).contains(k) <==> box_links(fold, files, es).contains(k));
        assert(lvs(c2.links@).contains(k) <==> box_links(fold, files, es).contains(k));
    }
    lemma_links_unique(c1.links@, c2.links@);
    assert forall|k: Seq<char>| texts(c1.in_cycle@).contains(k) <==> texts(c2.in_cycle@).contains(k) by {
        assert(texts(c1.in_cycle@).contains(k) <==> cycle_box_list(fold, files, cyc).contains(k));
        assert(texts(c2.in_cycle@).contains(k) <==> cycle_box_list(fold, files, cyc).contains(k));
    }
    lemma_sorted_texts_unique(c1.in_cycle@, c2.in_cycle@);
}

/// The dependency picture relation fixes one document: two universes of one run, drawn with the
/// same scope, cap and fold, give the same text.
pub proof fn law_dep_document_is_determined(
    trees: Seq<DepTree>,
    u1: DepUniverse,
    u2: DepUniverse,
    scope: Option<&str>,
    top: usize,
    fold: Fold,
    erased: Seq<char>,
    r1: Seq<char>,
    r2: Seq<char>,
)
    requires
        universe_of(trees, u1),
        universe_of(trees, u2),
        dep_picture(u1, scope, top, fold, erased, r1),
        dep_picture(u2, scope, top, fold, erased, r2),
    ensures
        r1 == r2,
{
    lemma_universe_values(trees, u1, u2);
    lemma_scoped_same(u1.nodes@, u2.nodes@, scope);
    assert(keyvs(u1.nodes@).len() == u1.nodes@.len() && keyvs(u2.nodes@).len() == u2.nodes@.len());
    assert(ervs(u1.edges@).len() == u1.edges@.len() && ervs(u2.edges@).len() == u2.edges@.len());
    if fold.0 is Some {
        let files = scoped_files(u1.nodes@, scope);
        let es = ervs(u1.edges@);
        let cyc = texts(u1.cycle_files@);
        let c1 = choose|c: Collapsed|
            collapse_of(fold, files, es, cyc, c) && r1 == #[trigger] super::picture::dep_document(
                scope,
                top,
                fold,
                bvs(c.nodes@),
                lvs(c.links@),
                texts(c.in_cycle@),
                c.nodes@.len(),
                c.links@.len(),
                u1.cycles as nat,
                u1.mutual_outside_cycles as nat,
                crate::graph::fold::census_text(fold, files.len(), c.nodes@.len(), c.unfoldable as nat, c.file_edges as nat, c.links@.len()),
                erased,
            );
        let c2 = choose|c: Collapsed|
            collapse_of(fold, files, es, cyc, c) && r2 == #[trigger] super::picture::dep_document(
                scope,
                top,
                fold,
                bvs(c.nodes@),
                lvs(c.links@),
                texts(c.in_cycle@),
                c.nodes@.len(),
                c.links@.len(),
                u2.cycles as nat,
                u2.mutual_outside_cycles as nat,
                crate::graph::fold::census_text(fold, files.len(), c.nodes@.len(), c.unfoldable as nat, c.file_edges as nat, c.links@.len()),
                erased,
            );
        lemma_collapse_values(fold, files, es, cyc, c1, c2);
        assert(bvs(c1.nodes@).len() == c1.nodes@.len() && bvs(c2.nodes@).len() == c2.nodes@.len());
        assert(lvs(c1.links@).len() == c1.links@.len() && lvs(c2.links@).len() == c2.links@.len());
    }
}

} // verus!
