//! The graph a dependency picture is drawn from: the in-scope files (or, under `--fold`, the boxes
//! they collapse into), the import links between them with how many file-level imports each
//! stands for, and which of them are in a reported cycle.
use vstd::prelude::*;

use super::universe::{erv, ervs, DepUniverse, EdgeRow, Keyed};
use crate::graph::distinct::{lemma_uniq, lemma_uniq_push, texts, uniq, Text};
use crate::graph::fold::{fold_path, unfoldable_path, Fold};
use crate::sort::{sort_ranked, strictly_sorted, Ranked};
use crate::text::{
    is_prefix, lemma_lex_asym, lemma_lex_irreflexive, lemma_lex_total, lemma_lex_trans, lex_lt, order_str, owned,
    push_str, starts_with, str_eq, Cmp,
};

verus! {

broadcast use vstd::seq_lib::group_seq_properties;

/// A drawable node: its id, its tree, and the path its label shows.
pub struct Node {
    pub id: String,
    pub source: String,
    pub rel: String,
}

/// A node as the contracts read it: (id, tree, path).
pub type NodeV = (Seq<char>, Seq<char>, Seq<char>);

/// The view of a node.
pub open spec fn bv(n: Node) -> NodeV {
    (n.id@, n.source@, n.rel@)
}

/// The views of a list of nodes.
pub open spec fn bvs(v: Seq<Node>) -> Seq<NodeV> {
    v.map_values(|n: Node| bv(n))
}

impl Ranked for Node {
    open spec fn before(self, other: Self) -> bool {
        lex_lt(self.id@, other.id@)
    }

    open spec fn ties(self, other: Self) -> bool {
        self.id@ == other.id@
    }

    fn is_before(&self, other: &Self) -> (r: bool) {
        order_str(self.id.as_str(), other.id.as_str()) == Cmp::Less
    }

    proof fn lemma_order(a: Self, b: Self, c: Self) {
        lemma_lex_irreflexive(a.id@);
        lemma_lex_total(a.id@, b.id@);
        if lex_lt(a.id@, b.id@) && lex_lt(b.id@, c.id@) {
            lemma_lex_trans(a.id@, b.id@, c.id@);
        }
    }
}

/// A drawable link: importer, imported, and how many file-level imports it stands for.
pub struct Link {
    pub from: String,
    pub to: String,
    pub weight: u64,
}

/// A link as the contracts read it.
pub type LinkV = (Seq<char>, Seq<char>, u64);

/// The view of a link.
pub open spec fn lv(l: Link) -> LinkV {
    (l.from@, l.to@, l.weight)
}

/// The views of a list of links.
pub open spec fn lvs(v: Seq<Link>) -> Seq<LinkV> {
    v.map_values(|l: Link| lv(l))
}

impl Ranked for Link {
    open spec fn before(self, other: Self) -> bool {
        lex_lt(self.from@, other.from@) || (self.from@ == other.from@ && lex_lt(self.to@, other.to@))
    }

    open spec fn ties(self, other: Self) -> bool {
        self.from@ == other.from@ && self.to@ == other.to@
    }

    fn is_before(&self, other: &Self) -> (r: bool) {
        let f = order_str(self.from.as_str(), other.from.as_str());
        if f != Cmp::Equal {
            return f == Cmp::Less;
        }
        order_str(self.to.as_str(), other.to.as_str()) == Cmp::Less
    }

    proof fn lemma_order(a: Self, b: Self, c: Self) {
        lemma_lex_irreflexive(a.from@);
        lemma_lex_irreflexive(a.to@);
        lemma_lex_total(a.from@, b.from@);
        lemma_lex_total(a.to@, b.to@);
        lemma_lex_asym(a.from@, b.from@);
        if lex_lt(a.from@, b.from@) && lex_lt(b.from@, c.from@) {
            lemma_lex_trans(a.from@, b.from@, c.from@);
        }
        if lex_lt(a.to@, b.to@) && lex_lt(b.to@, c.to@) {
            lemma_lex_trans(a.to@, b.to@, c.to@);
        }
    }
}

/// A file survives `--scope` when its id, its tree or its path starts with the prefix.
pub open spec fn node_in_scope(scope: Option<&str>, id: Seq<char>, source: Seq<char>, rel: Seq<char>) -> bool {
    match scope {
        None => true,
        Some(p) => is_prefix(p@, id) || is_prefix(p@, source) || is_prefix(p@, rel),
    }
}

/// The view of a universe file as a node.
pub open spec fn kv(k: Keyed) -> NodeV {
    (k.id@, k.node.source@, k.node.rel@)
}

/// The files of `ks` that survive `--scope`, in order.
pub open spec fn scoped_files(ks: Seq<Keyed>, scope: Option<&str>) -> Seq<NodeV>
    decreases ks.len(),
{
    if ks.len() == 0 {
        Seq::empty()
    } else {
        let r = scoped_files(ks.drop_last(), scope);
        let k = kv(ks.last());
        if node_in_scope(scope, k.0, k.1, k.2) {
            r.push(k)
        } else {
            r
        }
    }
}

/// The in-scope files, in id order.
pub fn scope_files(u: &DepUniverse, scope: Option<&str>) -> (r: Vec<Node>)
    ensures
        bvs(r@) == scoped_files(u.nodes@, scope),
{
    let mut out: Vec<Node> = Vec::new();
    let mut i: usize = 0;
    while i < u.nodes.len()
        invariant
            i <= u.nodes@.len(),
            bvs(out@) == scoped_files(u.nodes@.take(i as int), scope),
        decreases u.nodes@.len() - i,
    {
        let k = &u.nodes[i];
        proof {
            assert(u.nodes@.take(i + 1).drop_last() =~= u.nodes@.take(i as int));
            assert(u.nodes@.take(i + 1).last() == *k);
        }
        let inside = match scope {
            None => true,
            Some(p) => starts_with(k.id.as_str(), p) || starts_with(k.node.source.as_str(), p) || starts_with(
                k.node.rel.as_str(),
                p,
            ),
        };
        if inside {
            let ghost before = out@;
            let n = Node { id: owned(k.id.as_str()), source: owned(k.node.source.as_str()), rel: owned(k.node.rel.as_str()) };
            let ghost nv = bv(n);
            out.push(n);
            proof {
                assert(bvs(out@) =~= bvs(before).push(nv));
            }
        }
        i = i + 1;
    }
    proof {
        assert(u.nodes@.take(u.nodes@.len() as int) =~= u.nodes@);
    }
    out
}

/// Every import edge of the universe as a single-import link.
pub fn unit_links(u: &DepUniverse) -> (r: Vec<Link>)
    ensures
        lvs(r@) == ervs(u.edges@).map_values(|e: (Seq<char>, Seq<char>)| (e.0, e.1, 1u64)),
{
    let mut out: Vec<Link> = Vec::new();
    let mut i: usize = 0;
    while i < u.edges.len()
        invariant
            i <= u.edges@.len(),
            lvs(out@) == ervs(u.edges@).take(i as int).map_values(|e: (Seq<char>, Seq<char>)| (e.0, e.1, 1u64)),
        decreases u.edges@.len() - i,
    {
        let e = &u.edges[i];
        let ghost before = out@;
        out.push(Link { from: owned(e.from.as_str()), to: owned(e.to.as_str()), weight: 1 });
        proof {
            assert(ervs(u.edges@)[i as int] == erv(*e));
            assert(lvs(out@) =~= lvs(before).push((e.from@, e.to@, 1u64)));
            assert(ervs(u.edges@).take(i + 1) =~= ervs(u.edges@).take(i as int).push(erv(*e)));
            assert(lvs(out@) =~= ervs(u.edges@).take(i + 1).map_values(|e: (Seq<char>, Seq<char>)| (e.0, e.1, 1u64)));
        }
        i = i + 1;
    }
    proof {
        assert(ervs(u.edges@).take(u.edges@.len() as int) =~= ervs(u.edges@));
    }
    out
}

} // verus!
