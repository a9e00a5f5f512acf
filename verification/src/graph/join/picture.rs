//! The drawable join: every node once with its strongest role, every arrow once, every analyzed
//! source once, each list in its one sorted order. What the rows contribute is stated here as
//! sequences; the builders merge them and the contracts say the merge is exact.
use vstd::prelude::*;

use super::collect::{count_is, distinct, ents, kept_upto, lemma_kept_ids, BucketCount};
use super::model::{
    lemma_edge_order, lemma_node_order, node_lt, node_order, role_rank, same_edge, same_node,
    edge_lt, BucketItem, GraphEdge, JoinAnalysis, JoinEdge, NodeKey, Role, TreeSource,
};
use super::relations::{
    edge_census, edge_entries, edge_entry, edge_labelable, item_census, item_entries, item_entry,
    item_label, item_labelable, label_of,
};
use crate::output::rule_prose::{clone_text, ov};
use crate::sort::{sort_ranked, strictly_sorted, tie_free, Ranked};
use crate::text::{
    lemma_lex_asym, lemma_lex_irreflexive, lemma_lex_total, lemma_lex_trans, lex_lt, order_str, owned,
    Cmp,
};

verus! {

broadcast use vstd::seq_lib::group_seq_properties;

/// A node as the contracts read it: (source, provide side, kind, key).
pub type NodeV = (Seq<char>, bool, Seq<char>, Seq<char>);

/// An arrow as the contracts read it: (from, to, dotted, label).
pub type ArrowV = (NodeV, NodeV, bool, Option<Seq<char>>);

/// The view of a node key.
pub open spec fn nv(k: NodeKey) -> NodeV {
    (k.source@, k.provide, k.kind@, k.key@)
}

/// The view of a drawn arrow.
pub open spec fn av(e: GraphEdge) -> ArrowV {
    (nv(e.from), nv(e.to), e.dotted, ov(e.label))
}

/// A drawn node and the role it is drawn with.
pub struct DrawnNode {
    pub key: NodeKey,
    pub role: Role,
}

impl Ranked for DrawnNode {
    open spec fn before(self, other: Self) -> bool {
        node_lt(self.key, other.key)
    }

    open spec fn ties(self, other: Self) -> bool {
        same_node(self.key, other.key)
    }

    fn is_before(&self, other: &Self) -> (r: bool) {
        node_order(&self.key, &other.key) == Cmp::Less
    }

    proof fn lemma_order(a: Self, b: Self, c: Self) {
        lemma_node_order(a.key, b.key, c.key);
    }
}

/// Three-way comparison of optional labels: absent first, then by text.
fn label_order(a: &Option<String>, b: &Option<String>) -> (r: Cmp)
    ensures
        r == Cmp::Less <==> super::model::label_lt(*a, *b),
        r == Cmp::Equal <==> ov(*a) == ov(*b),
        r == Cmp::Greater <==> super::model::label_lt(*b, *a),
{
    match (a, b) {
        (None, None) => Cmp::Equal,
        (None, Some(_)) => Cmp::Less,
        (Some(_), None) => Cmp::Greater,
        (Some(x), Some(y)) => {
            proof {
                lemma_lex_asym(x@, y@);
                lemma_lex_asym(y@, x@);
                lemma_lex_total(x@, y@);
                lemma_lex_irreflexive(x@);
            }
            order_str(x.as_str(), y.as_str())
        },
    }
}

/// Three-way arrow comparison in the arrow order.
pub fn edge_order(a: &GraphEdge, b: &GraphEdge) -> (r: Cmp)
    ensures
        r == Cmp::Less <==> edge_lt(*a, *b),
        r == Cmp::Equal <==> same_edge(*a, *b),
        r == Cmp::Greater <==> edge_lt(*b, *a),
{
    proof {
        lemma_edge_order(*a, *b, *b);
        lemma_edge_order(*b, *a, *a);
        lemma_node_order(a.from, b.from, b.from);
        lemma_node_order(a.to, b.to, b.to);
    }
    let f = node_order(&a.from, &b.from);
    if f != Cmp::Equal {
        return f;
    }
    let t = node_order(&a.to, &b.to);
    if t != Cmp::Equal {
        return t;
    }
    if a.dotted != b.dotted {
        return if b.dotted {
            Cmp::Less
        } else {
            Cmp::Greater
        };
    }
    label_order(&a.label, &b.label)
}

impl Ranked for GraphEdge {
    open spec fn before(self, other: Self) -> bool {
        edge_lt(self, other)
    }

    open spec fn ties(self, other: Self) -> bool {
        same_edge(self, other)
    }

    fn is_before(&self, other: &Self) -> (r: bool) {
        edge_order(self, other) == Cmp::Less
    }

    proof fn lemma_order(a: Self, b: Self, c: Self) {
        lemma_edge_order(a, b, c);
        lemma_edge_order(b, a, c);
    }
}

/// One analyzed source and whether it contributed nothing the join could use.
pub struct SourceRow {
    pub source: String,
    pub zero: bool,
}

impl Ranked for SourceRow {
    open spec fn before(self, other: Self) -> bool {
        lex_lt(self.source@, other.source@)
    }

    open spec fn ties(self, other: Self) -> bool {
        self.source@ == other.source@
    }

    fn is_before(&self, other: &Self) -> (r: bool) {
        order_str(self.source.as_str(), other.source.as_str()) == Cmp::Less
    }

    proof fn lemma_order(a: Self, b: Self, c: Self) {
        lemma_lex_irreflexive(a.source@);
        lemma_lex_total(a.source@, b.source@);
        if lex_lt(a.source@, b.source@) && lex_lt(b.source@, c.source@) {
            lemma_lex_trans(a.source@, b.source@, c.source@);
        }
    }
}

/// A copy of a node key.
pub fn copy_key(k: &NodeKey) -> (r: NodeKey)
    ensures
        nv(r) == nv(*k),
{
    NodeKey { source: owned(k.source.as_str()), provide: k.provide, kind: owned(k.kind.as_str()), key: owned(k.key.as_str()) }
}

/// No node appears twice in `m`.
pub open spec fn keys_distinct(m: Seq<DrawnNode>) -> bool {
    forall|a: int, b: int| 0 <= a < m.len() && 0 <= b < m.len() && a != b ==> nv(#[trigger] m[a].key) != nv(#[trigger] m[b].key)
}

/// Some node of `m` is `k`.
pub open spec fn node_in(m: Seq<DrawnNode>, k: NodeV) -> bool {
    exists|i: int| 0 <= i < m.len() && nv((#[trigger] m[i]).key) == k
}

/// Some arrow of `m` is `x`.
pub open spec fn arrow_in(m: Seq<GraphEdge>, x: ArrowV) -> bool {
    exists|i: int| 0 <= i < m.len() && av(#[trigger] m[i]) == x
}

/// Every node of `m`, with its role, is one of the contributions `c`.
pub open spec fn from_contrib(c: Seq<(NodeV, Role)>, m: Seq<DrawnNode>) -> bool {
    forall|i: int| 0 <= i < m.len() ==> c.contains((nv((#[trigger] m[i]).key), m[i].role))
}

/// No contribution gives a node of `m` a stronger role than it is drawn with.
pub open spec fn strongest(c: Seq<(NodeV, Role)>, m: Seq<DrawnNode>) -> bool {
    forall|i: int, j: int| 0 <= i < m.len() && 0 <= j < c.len() && (#[trigger] c[j]).0 == nv((#[trigger] m[i]).key) ==> role_rank(m[i].role) <= role_rank(c[j].1)
}

/// Every contributed node is in `m`.
pub open spec fn covers(c: Seq<(NodeV, Role)>, m: Seq<DrawnNode>) -> bool {
    forall|j: int| 0 <= j < c.len() ==> node_in(m, (#[trigger] c[j]).0)
}

/// `m` merges the node contributions `c`: no node twice, each drawn with a role some contribution
/// gave it and no contribution outranks, and every contribution's node present.
pub open spec fn merges(c: Seq<(NodeV, Role)>, m: Seq<DrawnNode>) -> bool {
    keys_distinct(m) && from_contrib(c, m) && strongest(c, m) && covers(c, m)
}

/// `m` holds each arrow of `c` exactly once.
pub open spec fn gathers(c: Seq<ArrowV>, m: Seq<GraphEdge>) -> bool {
    &&& forall|a: int, b: int| 0 <= a < m.len() && 0 <= b < m.len() && a != b ==> av(#[trigger] m[a]) != av(#[trigger] m[b])
    &&& forall|i: int| 0 <= i < m.len() ==> c.contains(av(#[trigger] m[i]))
    &&& forall|j: int| 0 <= j < c.len() ==> arrow_in(m, #[trigger] c[j])
}

proof fn lemma_replace_parts(c: Seq<(NodeV, Role)>, m0: Seq<DrawnNode>, m1: Seq<DrawnNode>, i: int, d: DrawnNode)
    requires
        keys_distinct(m0),
        0 <= i < m0.len(),
        m1 == m0.update(i, d),
        nv(d.key) == nv(m0[i].key),
    ensures
        keys_distinct(m1),
        forall|t: int| 0 <= t < m1.len() && t != i ==> #[trigger] m1[t] == m0[t],
        m1[i] == d,
{
    assert forall|a: int, b: int| 0 <= a < m1.len() && 0 <= b < m1.len() && a != b implies nv(#[trigger] m1[a].key) != nv(#[trigger] m1[b].key) by {
        assert(nv(m1[a].key) == nv(m0[a].key));
        assert(nv(m1[b].key) == nv(m0[b].key));
    }
}

proof fn lemma_replace_from(c: Seq<(NodeV, Role)>, m0: Seq<DrawnNode>, m1: Seq<DrawnNode>, i: int, d: DrawnNode)
    requires
        from_contrib(c, m0),
        0 <= i < m0.len(),
        m1.len() == m0.len(),
        forall|t: int| 0 <= t < m1.len() && t != i ==> #[trigger] m1[t] == m0[t],
        m1[i] == d,
    ensures
        from_contrib(c.push((nv(d.key), d.role)), m1),
{
    let c2 = c.push((nv(d.key), d.role));
    assert(c2[c.len() as int] == (nv(d.key), d.role));
    assert forall|t: int| 0 <= t < m1.len() implies c2.contains((nv((#[trigger] m1[t]).key), m1[t].role)) by {
        if t == i {
            assert(c2[c.len() as int] == (nv(m1[t].key), m1[t].role));
        } else {
            assert(m1[t] == m0[t]);
            let j = choose|j: int| 0 <= j < c.len() && #[trigger] c[j] == (nv((#[trigger] m0[t]).key), m0[t].role);
            assert(c2[j] == c[j]);
        }
    }
}

proof fn lemma_replace_strongest(c: Seq<(NodeV, Role)>, m0: Seq<DrawnNode>, m1: Seq<DrawnNode>, i: int, d: DrawnNode)
    requires
        strongest(c, m0),
        keys_distinct(m0),
        0 <= i < m0.len(),
        m1.len() == m0.len(),
        forall|t: int| 0 <= t < m1.len() && t != i ==> #[trigger] m1[t] == m0[t],
        m1[i] == d,
        nv(d.key) == nv(m0[i].key),
        role_rank(d.role) < role_rank(m0[i].role),
    ensures
        strongest(c.push((nv(d.key), d.role)), m1),
{
    let c2 = c.push((nv(d.key), d.role));
    assert forall|t: int, j: int| 0 <= t < m1.len() && 0 <= j < c2.len() && (#[trigger] c2[j]).0 == nv((#[trigger] m1[t]).key) implies role_rank(m1[t].role) <= role_rank(c2[j].1) by {
        if j < c.len() {
            assert(c2[j] == c[j]);
            if t == i {
                assert(c[j].0 == nv(m0[i].key));
                assert(role_rank(m0[i].role) <= role_rank(c[j].1));
            } else {
                assert(m1[t] == m0[t]);
                assert(c[j].0 == nv(m0[t].key));
            }
        } else {
            assert(c2[j] == (nv(d.key), d.role));
            if t != i {
                assert(m1[t] == m0[t]);
                assert(nv(m0[t].key) != nv(m0[i].key));
            }
        }
    }
}

proof fn lemma_replace_covers(c: Seq<(NodeV, Role)>, m0: Seq<DrawnNode>, m1: Seq<DrawnNode>, i: int, d: DrawnNode)
    requires
        covers(c, m0),
        0 <= i < m0.len(),
        m1.len() == m0.len(),
        forall|t: int| 0 <= t < m1.len() && t != i ==> #[trigger] m1[t] == m0[t],
        m1[i] == d,
        nv(d.key) == nv(m0[i].key),
    ensures
        covers(c.push((nv(d.key), d.role)), m1),
{
    let c2 = c.push((nv(d.key), d.role));
    assert forall|j: int| 0 <= j < c2.len() implies node_in(m1, (#[trigger] c2[j]).0) by {
        if j < c.len() {
            assert(c2[j] == c[j]);
            let t = choose|t: int| 0 <= t < m0.len() && nv((#[trigger] m0[t]).key) == (#[trigger] c[j]).0;
            if t == i {
                assert(nv(m1[i].key) == c2[j].0);
            } else {
                assert(m1[t] == m0[t]);
            }
        } else {
            assert(nv(m1[i].key) == c2[j].0);
        }
    }
}

proof fn lemma_merge_replace(c: Seq<(NodeV, Role)>, m0: Seq<DrawnNode>, m1: Seq<DrawnNode>, i: int, d: DrawnNode)
    requires
        merges(c, m0),
        0 <= i < m0.len(),
        m1 == m0.update(i, d),
        nv(d.key) == nv(m0[i].key),
        role_rank(d.role) < role_rank(m0[i].role),
    ensures
        merges(c.push((nv(d.key), d.role)), m1),
{
    lemma_replace_parts(c, m0, m1, i, d);
    lemma_replace_from(c, m0, m1, i, d);
    lemma_replace_strongest(c, m0, m1, i, d);
    lemma_replace_covers(c, m0, m1, i, d);
}

proof fn lemma_merge_keep(c: Seq<(NodeV, Role)>, m0: Seq<DrawnNode>, i: int, k: NodeV, role: Role)
    requires
        merges(c, m0),
        0 <= i < m0.len(),
        nv(m0[i].key) == k,
        role_rank(m0[i].role) <= role_rank(role),
    ensures
        merges(c.push((k, role)), m0),
{
    let c2 = c.push((k, role));
    assert forall|t: int| 0 <= t < m0.len() implies c2.contains((nv((#[trigger] m0[t]).key), m0[t].role)) by {
        let j = choose|j: int| 0 <= j < c.len() && #[trigger] c[j] == (nv((#[trigger] m0[t]).key), m0[t].role);
        assert(c2[j] == c[j]);
    }
    assert forall|t: int, j: int| 0 <= t < m0.len() && 0 <= j < c2.len() && (#[trigger] c2[j]).0 == nv((#[trigger] m0[t]).key) implies role_rank(m0[t].role) <= role_rank(c2[j].1) by {
        if j < c.len() {
            assert(c2[j] == c[j]);
        } else if t != i {
            assert(nv(m0[t].key) != nv(m0[i].key));
        }
    }
    assert forall|j: int| 0 <= j < c2.len() implies node_in(m0, (#[trigger] c2[j]).0) by {
        if j < c.len() {
            assert(c2[j] == c[j]);
        } else {
            assert(nv(m0[i].key) == c2[j].0);
        }
    }
}

proof fn lemma_merge_push(c: Seq<(NodeV, Role)>, m0: Seq<DrawnNode>, d: DrawnNode)
    requires
        merges(c, m0),
        forall|t: int| 0 <= t < m0.len() ==> nv((#[trigger] m0[t]).key) != nv(d.key),
    ensures
        merges(c.push((nv(d.key), d.role)), m0.push(d)),
{
    let c2 = c.push((nv(d.key), d.role));
    let m1 = m0.push(d);
    let n = m0.len() as int;
    assert(c2[c.len() as int] == (nv(d.key), d.role));
    assert forall|t: int| 0 <= t < m1.len() implies c2.contains((nv((#[trigger] m1[t]).key), m1[t].role)) by {
        if t < n {
            let j = choose|j: int| 0 <= j < c.len() && #[trigger] c[j] == (nv((#[trigger] m0[t]).key), m0[t].role);
            assert(c2[j] == c[j]);
        } else {
            assert(c2[c.len() as int] == (nv(m1[t].key), m1[t].role));
        }
    }
    assert forall|t: int, j: int| 0 <= t < m1.len() && 0 <= j < c2.len() && (#[trigger] c2[j]).0 == nv((#[trigger] m1[t]).key) implies role_rank(m1[t].role) <= role_rank(c2[j].1) by {
        if j < c.len() {
            assert(c2[j] == c[j]);
            if t == n {
                let t0 = choose|t0: int| 0 <= t0 < m0.len() && nv((#[trigger] m0[t0]).key) == (#[trigger] c[j]).0;
                assert(nv(m0[t0].key) != nv(d.key));
            }
        } else if t < n {
            assert(nv(m0[t].key) != nv(d.key));
        }
    }
    assert forall|j: int| 0 <= j < c2.len() implies node_in(m1, (#[trigger] c2[j]).0) by {
        if j < c.len() {
            assert(c2[j] == c[j]);
            let t = choose|t: int| 0 <= t < m0.len() && nv((#[trigger] m0[t]).key) == (#[trigger] c[j]).0;
            assert(m1[t] == m0[t]);
        } else {
            assert(nv(m1[n].key) == c2[j].0);
        }
    }
    assert forall|a: int, b: int| 0 <= a < m1.len() && 0 <= b < m1.len() && a != b implies nv(#[trigger] m1[a].key) != nv(#[trigger] m1[b].key) by {
        if a < n && b < n {
            assert(m1[a] == m0[a] && m1[b] == m0[b]);
        } else if a < n {
            assert(m1[a] == m0[a]);
        } else {
            assert(m1[b] == m0[b]);
        }
    }
}

/// Where node `key` already stands in `m`, if anywhere.
fn find_node(m: &Vec<DrawnNode>, key: &NodeKey) -> (r: Option<usize>)
    ensures
        match r {
            Some(i) => i < m@.len() && nv(m@[i as int].key) == nv(*key),
            None => forall|t: int| 0 <= t < m@.len() ==> nv((#[trigger] m@[t]).key) != nv(*key),
        },
{
    let mut i: usize = 0;
    while i < m.len()
        invariant
            i <= m@.len(),
            forall|t: int| 0 <= t < i ==> nv((#[trigger] m@[t]).key) != nv(*key),
        decreases m@.len() - i,
    {
        if node_order(&m[i].key, key) == Cmp::Equal {
            return Some(i);
        }
        i = i + 1;
    }
    None
}

/// Records one node contribution.
pub fn add_node(m: &mut Vec<DrawnNode>, key: NodeKey, role: Role, Ghost(c): Ghost<Seq<(NodeV, Role)>>)
    requires
        merges(c, old(m)@),
    ensures
        merges(c.push((nv(key), role)), final(m)@),
{
    let ghost m0 = m@;
    match find_node(m, &key) {
        Some(i) => {
            if role.rank() < m[i].role.rank() {
                let k = copy_key(&m[i].key);
                let d = DrawnNode { key: k, role };
                let ghost dv = d;
                m.set(i, d);
                proof {
                    lemma_merge_replace(c, m0, m@, i as int, dv);
                }
            } else {
                proof {
                    lemma_merge_keep(c, m0, i as int, nv(key), role);
                }
            }
        },
        None => {
            let d = DrawnNode { key, role };
            let ghost dv = d;
            m.push(d);
            proof {
                lemma_merge_push(c, m0, dv);
            }
        },
    }
}

/// Records one arrow contribution.
pub fn add_arrow(m: &mut Vec<GraphEdge>, e: GraphEdge, Ghost(c): Ghost<Seq<ArrowV>>)
    requires
        gathers(c, old(m)@),
    ensures
        gathers(c.push(av(e)), final(m)@),
{
    let ghost c2 = c.push(av(e));
    let ghost m0 = m@;
    let mut i: usize = 0;
    while i < m.len()
        invariant
            i <= m@.len(),
            m@ == m0,
            gathers(c, m0),
            c2 == c.push(av(e)),
            forall|t: int| 0 <= t < i ==> av(#[trigger] m@[t]) != av(e),
        decreases m@.len() - i,
    {
        if edge_order(&m[i], &e) == Cmp::Equal {
            proof {
                assert(av(m@[i as int]) == av(e));
                assert forall|t: int| 0 <= t < m0.len() implies c2.contains(av(#[trigger] m0[t])) by {
                    let j = choose|j: int| 0 <= j < c.len() && #[trigger] c[j] == av(m0[t]);
                    assert(c2[j] == c[j]);
                }
                assert forall|j: int| 0 <= j < c2.len() implies arrow_in(m0, #[trigger] c2[j]) by {
                    if j < c.len() {
                        assert(c2[j] == c[j]);
                    } else {
                        assert(av(m0[i as int]) == c2[j]);
                    }
                }
            }
            return;
        }
        i = i + 1;
    }
    let ghost ve = av(e);
    m.push(e);
    proof {
        let m1 = m@;
        let n = m0.len() as int;
        assert(av(m1[n]) == ve);
        assert forall|t: int| 0 <= t < m1.len() implies c2.contains(av(#[trigger] m1[t])) by {
            if t < n {
                let j = choose|j: int| 0 <= j < c.len() && #[trigger] c[j] == av(m0[t]);
                assert(c2[j] == c[j]);
                assert(m1[t] == m0[t]);
            } else {
                assert(c2[c.len() as int] == av(m1[t]));
            }
        }
        assert forall|j: int| 0 <= j < c2.len() implies arrow_in(m1, #[trigger] c2[j]) by {
            if j < c.len() {
                assert(c2[j] == c[j]);
                let t = choose|t: int| 0 <= t < m0.len() && av(#[trigger] m0[t]) == c[j];
                assert(m1[t] == m0[t]);
            } else {
                assert(av(m1[n]) == c2[j]);
            }
        }
        assert forall|a: int, b: int| 0 <= a < m1.len() && 0 <= b < m1.len() && a != b implies av(#[trigger] m1[a]) != av(#[trigger] m1[b]) by {
            if a < n && b < n {
                assert(m1[a] == m0[a] && m1[b] == m0[b]);
            } else if a < n {
                assert(m1[a] == m0[a]);
            } else {
                assert(m1[b] == m0[b]);
            }
        }
    }
}

/// The rows of a bucket that are drawn: its kept relations, at most `top` of them.
pub open spec fn drawn(es: Seq<Option<(Seq<char>, bool)>>, top: usize) -> Seq<int> {
    let k = kept_upto(es, es.len() as int);
    if k.len() <= top {
        k
    } else {
        k.take(top as int)
    }
}

/// A joined row's consumer node.
pub open spec fn consumer(e: JoinEdge) -> NodeV {
    (e.from.source->0@, false, e.kind->0@, e.key->0@)
}

/// A joined row's provider node.
pub open spec fn provider(e: JoinEdge) -> NodeV {
    (e.to.source->0@, true, e.kind->0@, e.key->0@)
}

/// The label of a joined arrow: the low-confidence reason, when there is one.
pub open spec fn low_label(low: Option<String>) -> Option<Seq<char>> {
    match low {
        Some(r) => Some("low confidence: "@ + r@),
        None => None,
    }
}

/// The arrow a joined row draws: consumer to provider, dotted and labelled when low-confidence.
pub open spec fn joined_arrow(e: JoinEdge) -> ArrowV {
    (consumer(e), provider(e), e.low_confidence is Some, low_label(e.low_confidence))
}

/// The nodes the first `q` drawn joined rows contribute.
pub open spec fn joined_nodes(edges: Seq<JoinEdge>, rows: Seq<int>, q: int) -> Seq<(NodeV, Role)>
    decreases q,
{
    if q <= 0 {
        Seq::empty()
    } else {
        let e = edges[rows[q - 1]];
        joined_nodes(edges, rows, q - 1).push((consumer(e), Role::Linked)).push((provider(e), Role::Linked))
    }
}

/// The arrows the first `q` drawn joined rows contribute.
pub open spec fn joined_arrows(edges: Seq<JoinEdge>, rows: Seq<int>, q: int) -> Seq<ArrowV>
    decreases q,
{
    if q <= 0 {
        Seq::empty()
    } else {
        joined_arrows(edges, rows, q - 1).push(joined_arrow(edges[rows[q - 1]]))
    }
}

/// A bucket row's own node, on side `provide`.
pub open spec fn item_node(it: BucketItem, provide: bool) -> NodeV {
    (it.source->0@, provide, it.kind->0@, label_of(it)->0@)
}

/// The candidate providers among the first `n` candidates of row `it`.
pub open spec fn candidate_nodes(it: BucketItem, n: int) -> Seq<(NodeV, Role)>
    decreases n,
{
    if n <= 0 {
        Seq::empty()
    } else {
        let r = candidate_nodes(it, n - 1);
        match it.candidate_sources@[n - 1] {
            Some(cs) => r.push(((cs@, true, it.kind->0@, label_of(it)->0@), Role::Candidate)),
            None => r,
        }
    }
}

/// The dotted arrows from row `it` to the first `n` candidates that name a source.
pub open spec fn candidate_arrows(it: BucketItem, provide: bool, n: int) -> Seq<ArrowV>
    decreases n,
{
    if n <= 0 {
        Seq::empty()
    } else {
        let r = candidate_arrows(it, provide, n - 1);
        match it.candidate_sources@[n - 1] {
            Some(cs) => r.push(
                (item_node(it, provide), (cs@, true, it.kind->0@, label_of(it)->0@), true, Some("ambiguous"@)),
            ),
            None => r,
        }
    }
}

/// The nodes the first `q` drawn rows of a bucket contribute.
pub open spec fn bucket_nodes(items: Seq<BucketItem>, rows: Seq<int>, provide: bool, role: Role, q: int) -> Seq<(NodeV, Role)>
    decreases q,
{
    if q <= 0 {
        Seq::empty()
    } else {
        let it = items[rows[q - 1]];
        bucket_nodes(items, rows, provide, role, q - 1).push((item_node(it, provide), role)) + candidate_nodes(
            it,
            it.candidate_sources@.len() as int,
        )
    }
}

/// The arrows the first `q` drawn rows of a bucket contribute.
pub open spec fn bucket_arrows(items: Seq<BucketItem>, rows: Seq<int>, provide: bool, q: int) -> Seq<ArrowV>
    decreases q,
{
    if q <= 0 {
        Seq::empty()
    } else {
        let it = items[rows[q - 1]];
        bucket_arrows(items, rows, provide, q - 1) + candidate_arrows(it, provide, it.candidate_sources@.len() as int)
    }
}

/// Everything a bucket draws: its nodes.
pub open spec fn bucket_draws(items: Seq<BucketItem>, provide: bool, role: Role, scope: Option<&str>, top: usize) -> Seq<(NodeV, Role)> {
    let rows = drawn(item_census(items, scope), top);
    bucket_nodes(items, rows, provide, role, rows.len() as int)
}

/// Everything a bucket draws: its arrows.
pub open spec fn bucket_draws_arrows(items: Seq<BucketItem>, provide: bool, scope: Option<&str>, top: usize) -> Seq<ArrowV> {
    let rows = drawn(item_census(items, scope), top);
    bucket_arrows(items, rows, provide, rows.len() as int)
}

/// Every node contribution of a run, in the order the rows are read.
pub open spec fn node_contribs(a: JoinAnalysis, scope: Option<&str>, top: usize) -> Seq<(NodeV, Role)> {
    let rows = drawn(edge_census(a.edges@, scope), top);
    joined_nodes(a.edges@, rows, rows.len() as int) + bucket_draws(a.unconsumed_provides@, true, Role::Unconsumed, scope, top)
        + bucket_draws(a.unprovided_consumes@, false, Role::Unprovided, scope, top) + bucket_draws(
        a.unresolved_consumes@,
        false,
        Role::Unresolved,
        scope,
        top,
    ) + bucket_draws(a.external_consumes@, false, Role::External, scope, top) + bucket_draws(
        a.ambiguous_consumes@,
        false,
        Role::Ambiguous,
        scope,
        top,
    )
}

/// Every arrow contribution of a run, in the order the rows are read.
pub open spec fn arrow_contribs(a: JoinAnalysis, scope: Option<&str>, top: usize) -> Seq<ArrowV> {
    let rows = drawn(edge_census(a.edges@, scope), top);
    joined_arrows(a.edges@, rows, rows.len() as int) + bucket_draws_arrows(a.unconsumed_provides@, true, scope, top)
        + bucket_draws_arrows(a.unprovided_consumes@, false, scope, top) + bucket_draws_arrows(
        a.unresolved_consumes@,
        false,
        scope,
        top,
    ) + bucket_draws_arrows(a.external_consumes@, false, scope, top) + bucket_draws_arrows(
        a.ambiguous_consumes@,
        false,
        scope,
        top,
    )
}

/// Row `k` exists and is a kept (labelled, in-scope) row.
pub open spec fn row_ok(es: Seq<Option<(Seq<char>, bool)>>, k: int) -> bool {
    0 <= k < es.len() && es[k] matches Some((_, true))
}

proof fn lemma_drawn_rows(es: Seq<Option<(Seq<char>, bool)>>, top: usize, kept: Seq<usize>)
    requires
        kept.len() == kept_upto(es, es.len() as int).len(),
        forall|q: int| 0 <= q < kept.len() ==> kept[q] as int == kept_upto(es, es.len() as int)[q],
    ensures
        drawn(es, top).len() == if kept.len() < top { kept.len() } else { top as nat },
        forall|q: int| 0 <= q < drawn(es, top).len() ==> #[trigger] drawn(es, top)[q] == kept[q] as int && row_ok(es, kept[q] as int),
{
    lemma_kept_ids(es, es.len() as int);
}

/// Draws the joined rows.
fn draw_joined(
    edges: &Vec<JoinEdge>,
    scope: Option<&str>,
    top: usize,
    nodes: &mut Vec<DrawnNode>,
    arrows: &mut Vec<GraphEdge>,
) -> (r: BucketCount)
    requires
        old(nodes)@.len() == 0,
        old(arrows)@.len() == 0,
    ensures
        count_is("edges"@, edge_census(edges@, scope), top, r),
        ({
            let rows = drawn(edge_census(edges@, scope), top);
            &&& merges(joined_nodes(edges@, rows, rows.len() as int), final(nodes)@)
            &&& gathers(joined_arrows(edges@, rows, rows.len() as int), final(arrows)@)
        }),
{
    let es = edge_entries(edges, scope);
    let (count, kept) = distinct("edges", &es, top);
    let ghost census = edge_census(edges@, scope);
    let ghost rows = drawn(census, top);
    proof {
        lemma_drawn_rows(census, top, kept@);
    }
    let shown = count.shown;
    let mut q: usize = 0;
    while q < shown
        invariant
            shown == rows.len(),
            q <= shown,
            census == edge_census(edges@, scope),
            forall|t: int| 0 <= t < rows.len() ==> #[trigger] rows[t] == kept@[t] as int && row_ok(census, rows[t]),
            kept@.len() >= shown,
            merges(joined_nodes(edges@, rows, q as int), nodes@),
            gathers(joined_arrows(edges@, rows, q as int), arrows@),
        decreases shown - q,
    {
        let k = kept[q];
        let ghost t = q as int;
        assert(rows[t] == k as int);
        let e = &edges[k];
        proof {
            assert(census[k as int] == edge_entry(edges@[k as int], scope));
            assert(edge_labelable(*e));
        }
        match (&e.kind, &e.key, &e.from.source, &e.to.source) {
            (Some(kind), Some(key), Some(fs), Some(ts)) => {
                let ghost c0 = joined_nodes(edges@, rows, q as int);
                let ghost a0 = joined_arrows(edges@, rows, q as int);
                let from = NodeKey { source: owned(fs.as_str()), provide: false, kind: owned(kind.as_str()), key: owned(key.as_str()) };
                let to = NodeKey { source: owned(ts.as_str()), provide: true, kind: owned(kind.as_str()), key: owned(key.as_str()) };
                let label = match &e.low_confidence {
                    Some(low) => {
                        let mut l = owned("low confidence: ");
                        crate::text::push_str(&mut l, low.as_str());
                        Some(l)
                    },
                    None => None,
                };
                let arrow = GraphEdge { from: copy_key(&from), to: copy_key(&to), dotted: e.low_confidence.is_some(), label };
                proof {
                    reveal_strlit("low confidence: ");
                    assert(av(arrow) == joined_arrow(*e));
                    assert(nv(from) == consumer(*e));
                    assert(nv(to) == provider(*e));
                }
                add_node(nodes, from, Role::Linked, Ghost(c0));
                add_node(nodes, to, Role::Linked, Ghost(c0.push((consumer(*e), Role::Linked))));
                add_arrow(arrows, arrow, Ghost(a0));
            },
            _ => {
                proof {
                    assert(false);
                }
            },
        }
        q = q + 1;
    }
    count
}

/// Draws one non-edge bucket: each drawn row's node, and for each of its candidates a provider
/// node and a dotted arrow to it.
fn draw_bucket(
    items: &Vec<BucketItem>,
    name: &'static str,
    provide: bool,
    role: Role,
    scope: Option<&str>,
    top: usize,
    nodes: &mut Vec<DrawnNode>,
    arrows: &mut Vec<GraphEdge>,
    Ghost(cn): Ghost<Seq<(NodeV, Role)>>,
    Ghost(ca): Ghost<Seq<ArrowV>>,
) -> (r: BucketCount)
    requires
        merges(cn, old(nodes)@),
        gathers(ca, old(arrows)@),
    ensures
        count_is(name@, item_census(items@, scope), top, r),
        merges(cn + bucket_draws(items@, provide, role, scope, top), final(nodes)@),
        gathers(ca + bucket_draws_arrows(items@, provide, scope, top), final(arrows)@),
{
    let es = item_entries(items, scope);
    let (count, kept) = distinct(name, &es, top);
    let ghost census = item_census(items@, scope);
    let ghost rows = drawn(census, top);
    proof {
        lemma_drawn_rows(census, top, kept@);
        assert(cn + bucket_nodes(items@, rows, provide, role, 0) =~= cn);
        assert(ca + bucket_arrows(items@, rows, provide, 0) =~= ca);
    }
    let shown = count.shown;
    let mut q: usize = 0;
    while q < shown
        invariant
            shown == rows.len(),
            q <= shown,
            census == item_census(items@, scope),
            forall|t: int| 0 <= t < rows.len() ==> #[trigger] rows[t] == kept@[t] as int && row_ok(census, rows[t]),
            kept@.len() >= shown,
            merges(cn + bucket_nodes(items@, rows, provide, role, q as int), nodes@),
            gathers(ca + bucket_arrows(items@, rows, provide, q as int), arrows@),
        decreases shown - q,
    {
        let k = kept[q];
        let ghost t = q as int;
        assert(rows[t] == k as int);
        let it = &items[k];
        proof {
            assert(census[k as int] == item_entry(items@[k as int], scope));
            assert(item_labelable(*it));
        }
        let ghost cn0 = cn + bucket_nodes(items@, rows, provide, role, q as int);
        let ghost ca0 = ca + bucket_arrows(items@, rows, provide, q as int);
        match (item_label(it), &it.source, &it.kind) {
            (Some(label), Some(source), Some(kind)) => {
                let me = NodeKey { source: owned(source.as_str()), provide, kind: owned(kind.as_str()), key: owned(label.as_str()) };
                let ghost mine = nv(me);
                assert(mine == item_node(*it, provide));
                add_node(nodes, copy_key(&me), role, Ghost(cn0));
                let ghost cn1 = cn0.push((mine, role));
                proof {
                    assert(cn1 + candidate_nodes(*it, 0) =~= cn1);
                    assert(ca0 + candidate_arrows(*it, provide, 0) =~= ca0);
                }
                let mut j: usize = 0;
                while j < it.candidate_sources.len()
                    invariant
                        j <= it.candidate_sources@.len(),
                        nv(me) == mine,
                        mine == item_node(*it, provide),
                        label@ == label_of(*it)->0@,
                        kind@ == it.kind->0@,
                        merges(cn1 + candidate_nodes(*it, j as int), nodes@),
                        gathers(ca0 + candidate_arrows(*it, provide, j as int), arrows@),
                    decreases it.candidate_sources@.len() - j,
                {
                    match &it.candidate_sources[j] {
                        Some(cs) => {
                            let theirs = NodeKey { source: owned(cs.as_str()), provide: true, kind: owned(kind.as_str()), key: owned(label.as_str()) };
                            let arrow = GraphEdge { from: copy_key(&me), to: copy_key(&theirs), dotted: true, label: Some(owned("ambiguous")) };
                            let ghost pn = cn1 + candidate_nodes(*it, j as int);
                            let ghost pa = ca0 + candidate_arrows(*it, provide, j as int);
                            proof {
                                reveal_strlit("ambiguous");
                                assert(pn.push((nv(theirs), Role::Candidate)) =~= cn1 + candidate_nodes(*it, j + 1));
                                assert(pa.push(av(arrow)) =~= ca0 + candidate_arrows(*it, provide, j + 1));
                            }
                            add_node(nodes, theirs, Role::Candidate, Ghost(pn));
                            add_arrow(arrows, arrow, Ghost(pa));
                        },
                        None => {
                            proof {
                                assert(candidate_nodes(*it, j + 1) == candidate_nodes(*it, j as int));
                                assert(candidate_arrows(*it, provide, j + 1) == candidate_arrows(*it, provide, j as int));
                            }
                        },
                    }
                    j = j + 1;
                }
                proof {
                    assert(cn1 + candidate_nodes(*it, it.candidate_sources@.len() as int) =~= cn + bucket_nodes(
                        items@,
                        rows,
                        provide,
                        role,
                        q + 1,
                    ));
                    assert(ca0 + candidate_arrows(*it, provide, it.candidate_sources@.len() as int) =~= ca + bucket_arrows(
                        items@,
                        rows,
                        provide,
                        q + 1,
                    ));
                }
            },
            _ => {
                proof {
                    assert(false);
                }
            },
        }
        q = q + 1;
    }
    count
}

/// Tree `t` carries source id `s`.
pub open spec fn names(t: TreeSource, s: Seq<char>) -> bool {
    match t.source_id {
        Some(x) => x@ == s,
        None => false,
    }
}

/// The join-contribution flag of the last of the first `n` trees named `s`.
pub open spec fn last_zero(trees: Seq<TreeSource>, s: Seq<char>, n: int) -> bool
    decreases n,
{
    if n <= 0 {
        false
    } else if names(trees[n - 1], s) {
        trees[n - 1].join_contribution_zero
    } else {
        last_zero(trees, s, n - 1)
    }
}

/// One of the first `n` trees carries source id `s`.
pub open spec fn named_in(trees: Seq<TreeSource>, s: Seq<char>, n: int) -> bool {
    exists|t: int| 0 <= t < n && #[trigger] names(trees[t], s)
}

/// Some row of `out` is source `s`.
pub open spec fn listed(out: Seq<SourceRow>, s: Seq<char>) -> bool {
    exists|i: int| 0 <= i < out.len() && (#[trigger] out[i]).source@ == s
}

/// `out` lists the source ids of the first `n` trees, each once, with the flag the last tree of
/// that id carries.
pub open spec fn lists_sources(trees: Seq<TreeSource>, n: int, out: Seq<SourceRow>) -> bool {
    &&& forall|a: int, b: int| 0 <= a < out.len() && 0 <= b < out.len() && a != b ==> (#[trigger] out[a]).source@ != (#[trigger] out[b]).source@
    &&& forall|i: int| 0 <= i < out.len() ==> named_in(trees, (#[trigger] out[i]).source@, n)
    &&& forall|t: int| 0 <= t < n && (#[trigger] trees[t]).source_id is Some ==> listed(out, trees[t].source_id->0@)
    &&& forall|i: int| 0 <= i < out.len() ==> (#[trigger] out[i]).zero == last_zero(trees, out[i].source@, n)
}

/// The sources of a run, in their sorted order.
pub open spec fn sources_of(trees: Seq<TreeSource>, out: Seq<SourceRow>) -> bool {
    lists_sources(trees, trees.len() as int, out) && strictly_sorted(out)
}

proof fn lemma_last_zero_other(trees: Seq<TreeSource>, s: Seq<char>, n: int)
    requires
        0 <= n < trees.len(),
        !names(trees[n], s),
    ensures
        last_zero(trees, s, n + 1) == last_zero(trees, s, n),
{
}

proof fn lemma_named_grow(trees: Seq<TreeSource>, s: Seq<char>, n: int)
    requires
        named_in(trees, s, n),
    ensures
        named_in(trees, s, n + 1),
{
    let t = choose|t: int| 0 <= t < n && #[trigger] names(trees[t], s);
    assert(names(trees[t], s));
}

proof fn lemma_named_here(trees: Seq<TreeSource>, s: Seq<char>, n: int)
    requires
        0 <= n < trees.len(),
        names(trees[n], s),
    ensures
        named_in(trees, s, n + 1),
{
    assert(names(trees[n], s));
}

/// The analyzed sources, each once.
fn gather_sources(trees: &Vec<TreeSource>) -> (r: Vec<SourceRow>)
    ensures
        lists_sources(trees@, trees@.len() as int, r@),
{
    let mut out: Vec<SourceRow> = Vec::new();
    let mut t: usize = 0;
    while t < trees.len()
        invariant
            t <= trees@.len(),
            lists_sources(trees@, t as int, out@),
        decreases trees@.len() - t,
    {
        let ghost o0 = out@;
        let tree = &trees[t];
        match &tree.source_id {
            Some(id) => {
                let mut i: usize = 0;
                let mut at: Option<usize> = None;
                while i < out.len()
                    invariant
                        i <= out@.len(),
                        out@ == o0,
                        match at {
                            Some(p) => p < out@.len() && out@[p as int].source@ == id@,
                            None => forall|u: int| 0 <= u < i ==> (#[trigger] out@[u]).source@ != id@,
                        },
                    decreases out@.len() - i,
                {
                    if at.is_none() && crate::text::str_eq(out[i].source.as_str(), id.as_str()) {
                        at = Some(i);
                    }
                    i = i + 1;
                }
                let row = SourceRow { source: owned(id.as_str()), zero: tree.join_contribution_zero };
                let ghost rv = row;
                let ghost p: int = match at {
                    Some(p) => p as int,
                    None => o0.len() as int,
                };
                match at {
                    Some(p) => {
                        out.set(p, row);
                    },
                    None => {
                        out.push(row);
                    },
                }
                proof {
                    let o1 = out@;
                    assert(names(trees@[t as int], id@));
                    assert(o1[p] == rv);
                    assert forall|u: int| 0 <= u < o1.len() && u != p implies #[trigger] o1[u] == o0[u] && o0[u].source@ != id@ by {
                        if at is Some {
                            assert(o0[u].source@ != o0[p].source@);
                        }
                    }
                    assert forall|u: int| 0 <= u < o1.len() implies (#[trigger] o1[u]).zero == last_zero(trees@, o1[u].source@, t + 1) by {
                        if u != p {
                            lemma_last_zero_other(trees@, o0[u].source@, t as int);
                        }
                    }
                    assert forall|u: int| 0 <= u < o1.len() implies named_in(trees@, (#[trigger] o1[u]).source@, t + 1) by {
                        if u == p {
                            lemma_named_here(trees@, o1[u].source@, t as int);
                        } else {
                            lemma_named_grow(trees@, o0[u].source@, t as int);
                        }
                    }
                    assert forall|v: int| 0 <= v < t + 1 && (#[trigger] trees@[v]).source_id is Some implies listed(o1, trees@[v].source_id->0@) by {
                        if v == t {
                            assert(o1[p].source@ == trees@[v].source_id->0@);
                        } else {
                            let sv = trees@[v].source_id->0@;
                            assert(listed(o0, sv));
                            let u = choose|u: int| 0 <= u < o0.len() && (#[trigger] o0[u]).source@ == sv;
                            if u == p {
                                assert(o1[p].source@ == id@);
                            } else {
                                assert(o1[u] == o0[u]);
                            }
                        }
                    }
                    assert forall|a: int, b: int| 0 <= a < o1.len() && 0 <= b < o1.len() && a != b implies (#[trigger] o1[a]).source@ != (#[trigger] o1[b]).source@ by {
                        if a != p && b != p {
                            assert(o1[a] == o0[a] && o1[b] == o0[b]);
                        } else if a != p {
                            assert(o1[a] == o0[a]);
                        } else {
                            assert(o1[b] == o0[b]);
                        }
                    }
                }
            },
            None => {
                proof {
                    assert forall|u: int| 0 <= u < o0.len() implies (#[trigger] o0[u]).zero == last_zero(trees@, o0[u].source@, t + 1) by {
                        lemma_last_zero_other(trees@, o0[u].source@, t as int);
                    }
                    assert forall|u: int| 0 <= u < o0.len() implies named_in(trees@, (#[trigger] o0[u]).source@, t + 1) by {
                        lemma_named_grow(trees@, o0[u].source@, t as int);
                    }
                }
            },
        }
        t = t + 1;
    }
    out
}

proof fn lemma_perm<T>(m: Seq<T>, s: Seq<T>)
    requires
        m.to_multiset() == s.to_multiset(),
    ensures
        forall|i: int| 0 <= i < s.len() ==> m.contains(#[trigger] s[i]),
        forall|k: int| 0 <= k < m.len() ==> s.contains(#[trigger] m[k]),
{
    assert forall|i: int| 0 <= i < s.len() implies m.contains(#[trigger] s[i]) by {
        assert(s.contains(s[i]));
        vstd::seq_lib::to_multiset_contains(s, s[i]);
        vstd::seq_lib::to_multiset_contains(m, s[i]);
    }
    assert forall|k: int| 0 <= k < m.len() implies s.contains(#[trigger] m[k]) by {
        assert(m.contains(m[k]));
        vstd::seq_lib::to_multiset_contains(s, m[k]);
        vstd::seq_lib::to_multiset_contains(m, m[k]);
    }
}

proof fn lemma_sorted_distinct(s: Seq<DrawnNode>)
    requires
        strictly_sorted(s),
    ensures
        keys_distinct(s),
{
    assert forall|a: int, b: int| 0 <= a < s.len() && 0 <= b < s.len() && a != b implies nv(#[trigger] s[a].key) != nv(#[trigger] s[b].key) by {
        lemma_node_order(s[a].key, s[a].key, s[a].key);
        lemma_node_order(s[b].key, s[b].key, s[b].key);
        if a < b {
            assert(s[a].before(s[b]));
        } else {
            assert(s[b].before(s[a]));
        }
    }
}

proof fn lemma_sorted_merges(c: Seq<(NodeV, Role)>, m: Seq<DrawnNode>, s: Seq<DrawnNode>)
    requires
        merges(c, m),
        m.to_multiset() == s.to_multiset(),
        strictly_sorted(s),
    ensures
        merges(c, s),
{
    lemma_perm(m, s);
    lemma_sorted_distinct(s);
    assert forall|i: int| 0 <= i < s.len() implies c.contains((nv((#[trigger] s[i]).key), s[i].role)) by {
        assert(m.contains(s[i]));
        let k = choose|k: int| 0 <= k < m.len() && m[k] == s[i];
        assert(from_contrib(c, m));
        let j = choose|j: int| 0 <= j < c.len() && #[trigger] c[j] == (nv((#[trigger] m[k]).key), m[k].role);
        assert(c[j] == (nv(s[i].key), s[i].role));
    }
    assert forall|i: int, j: int| 0 <= i < s.len() && 0 <= j < c.len() && (#[trigger] c[j]).0 == nv((#[trigger] s[i]).key) implies role_rank(s[i].role) <= role_rank(c[j].1) by {
        assert(m.contains(s[i]));
        let k = choose|k: int| 0 <= k < m.len() && m[k] == s[i];
        assert(strongest(c, m));
        assert(c[j].0 == nv(m[k].key));
    }
    assert forall|j: int| 0 <= j < c.len() implies node_in(s, (#[trigger] c[j]).0) by {
        assert(covers(c, m));
        let k = choose|k: int| 0 <= k < m.len() && nv((#[trigger] m[k]).key) == (#[trigger] c[j]).0;
        assert(s.contains(m[k]));
        let i = choose|i: int| 0 <= i < s.len() && s[i] == m[k];
        assert(nv(s[i].key) == c[j].0);
    }
}

proof fn lemma_sorted_gathers(c: Seq<ArrowV>, m: Seq<GraphEdge>, s: Seq<GraphEdge>)
    requires
        gathers(c, m),
        m.to_multiset() == s.to_multiset(),
        strictly_sorted(s),
    ensures
        gathers(c, s),
{
    lemma_perm(m, s);
    assert forall|a: int, b: int| 0 <= a < s.len() && 0 <= b < s.len() && a != b implies av(#[trigger] s[a]) != av(#[trigger] s[b]) by {
        lemma_edge_order(s[a], s[a], s[a]);
        lemma_edge_order(s[b], s[b], s[b]);
        if a < b {
            assert(s[a].before(s[b]));
        } else {
            assert(s[b].before(s[a]));
        }
    }
    assert forall|i: int| 0 <= i < s.len() implies c.contains(av(#[trigger] s[i])) by {
        assert(m.contains(s[i]));
        let k = choose|k: int| 0 <= k < m.len() && m[k] == s[i];
        let j = choose|j: int| 0 <= j < c.len() && #[trigger] c[j] == av(#[trigger] m[k]);
        assert(c[j] == av(s[i]));
    }
    assert forall|j: int| 0 <= j < c.len() implies arrow_in(s, #[trigger] c[j]) by {
        let k = choose|k: int| 0 <= k < m.len() && av(#[trigger] m[k]) == #[trigger] c[j];
        assert(s.contains(m[k]));
        let i = choose|i: int| 0 <= i < s.len() && s[i] == m[k];
        assert(av(s[i]) == c[j]);
    }
}

proof fn lemma_sorted_sources(trees: Seq<TreeSource>, m: Seq<SourceRow>, s: Seq<SourceRow>)
    requires
        lists_sources(trees, trees.len() as int, m),
        m.to_multiset() == s.to_multiset(),
        strictly_sorted(s),
    ensures
        lists_sources(trees, trees.len() as int, s),
{
    lemma_perm(m, s);
    let n = trees.len() as int;
    assert forall|a: int, b: int| 0 <= a < s.len() && 0 <= b < s.len() && a != b implies (#[trigger] s[a]).source@ != (#[trigger] s[b]).source@ by {
        lemma_lex_irreflexive(s[a].source@);
        if a < b {
            assert(s[a].before(s[b]));
        } else {
            assert(s[b].before(s[a]));
        }
    }
    assert forall|i: int| 0 <= i < s.len() implies named_in(trees, (#[trigger] s[i]).source@, n) && s[i].zero == last_zero(trees, s[i].source@, n) by {
        assert(m.contains(s[i]));
        let k = choose|k: int| 0 <= k < m.len() && m[k] == s[i];
        assert(named_in(trees, m[k].source@, n));
    }
    assert forall|t: int| 0 <= t < n && (#[trigger] trees[t]).source_id is Some implies listed(s, trees[t].source_id->0@) by {
        let sv = trees[t].source_id->0@;
        assert(listed(m, sv));
        let k = choose|k: int| 0 <= k < m.len() && (#[trigger] m[k]).source@ == sv;
        assert(s.contains(m[k]));
        let i = choose|i: int| 0 <= i < s.len() && s[i] == m[k];
        assert(s[i].source@ == sv);
    }
}

/// The join picture of a run: its sources, nodes and arrows, and the six bucket censuses.
pub struct JoinGraph {
    pub sources: Vec<SourceRow>,
    pub nodes: Vec<DrawnNode>,
    pub arrows: Vec<GraphEdge>,
    pub counts: Vec<BucketCount>,
}

/// `counts` are the run's six bucket censuses, joined rows first, then the five non-edge buckets
/// in engine order.
pub open spec fn censuses(a: JoinAnalysis, scope: Option<&str>, top: usize, counts: Seq<BucketCount>) -> bool {
    &&& counts.len() == 6
    &&& count_is("edges"@, edge_census(a.edges@, scope), top, counts[0])
    &&& count_is("unconsumedProvides"@, item_census(a.unconsumed_provides@, scope), top, counts[1])
    &&& count_is("unprovidedConsumes"@, item_census(a.unprovided_consumes@, scope), top, counts[2])
    &&& count_is("unresolvedConsumes"@, item_census(a.unresolved_consumes@, scope), top, counts[3])
    &&& count_is("externalConsumes"@, item_census(a.external_consumes@, scope), top, counts[4])
    &&& count_is("ambiguousConsumes"@, item_census(a.ambiguous_consumes@, scope), top, counts[5])
}

/// `g` is the join picture of run `a` under `scope` and `top`.
pub open spec fn graph_of(a: JoinAnalysis, scope: Option<&str>, top: usize, g: JoinGraph) -> bool {
    &&& sources_of(a.trees@, g.sources@)
    &&& merges(node_contribs(a, scope, top), g.nodes@) && strictly_sorted(g.nodes@)
    &&& gathers(arrow_contribs(a, scope, top), g.arrows@) && strictly_sorted(g.arrows@)
    &&& censuses(a, scope, top, g.counts@)
}

/// Builds the join picture: the joined rows first, then each non-edge bucket, each capped at
/// `top` drawn relations; then every list in its sorted order.
pub fn build(a: &JoinAnalysis, scope: Option<&str>, top: usize) -> (g: JoinGraph)
    ensures
        graph_of(*a, scope, top, g),
{
    let sources0 = gather_sources(&a.trees);
    let mut nodes: Vec<DrawnNode> = Vec::new();
    let mut arrows: Vec<GraphEdge> = Vec::new();
    let c0 = draw_joined(&a.edges, scope, top, &mut nodes, &mut arrows);
    let ghost rows = drawn(edge_census(a.edges@, scope), top);
    let ghost n0 = joined_nodes(a.edges@, rows, rows.len() as int);
    let ghost r0 = joined_arrows(a.edges@, rows, rows.len() as int);
    let c1 = draw_bucket(&a.unconsumed_provides, "unconsumedProvides", true, Role::Unconsumed, scope, top, &mut nodes, &mut arrows, Ghost(n0), Ghost(r0));
    let ghost n1 = n0 + bucket_draws(a.unconsumed_provides@, true, Role::Unconsumed, scope, top);
    let ghost r1 = r0 + bucket_draws_arrows(a.unconsumed_provides@, true, scope, top);
    let c2 = draw_bucket(&a.unprovided_consumes, "unprovidedConsumes", false, Role::Unprovided, scope, top, &mut nodes, &mut arrows, Ghost(n1), Ghost(r1));
    let ghost n2 = n1 + bucket_draws(a.unprovided_consumes@, false, Role::Unprovided, scope, top);
    let ghost r2 = r1 + bucket_draws_arrows(a.unprovided_consumes@, false, scope, top);
    let c3 = draw_bucket(&a.unresolved_consumes, "unresolvedConsumes", false, Role::Unresolved, scope, top, &mut nodes, &mut arrows, Ghost(n2), Ghost(r2));
    let ghost n3 = n2 + bucket_draws(a.unresolved_consumes@, false, Role::Unresolved, scope, top);
    let ghost r3 = r2 + bucket_draws_arrows(a.unresolved_consumes@, false, scope, top);
    let c4 = draw_bucket(&a.external_consumes, "externalConsumes", false, Role::External, scope, top, &mut nodes, &mut arrows, Ghost(n3), Ghost(r3));
    let ghost n4 = n3 + bucket_draws(a.external_consumes@, false, Role::External, scope, top);
    let ghost r4 = r3 + bucket_draws_arrows(a.external_consumes@, false, scope, top);
    let c5 = draw_bucket(&a.ambiguous_consumes, "ambiguousConsumes", false, Role::Ambiguous, scope, top, &mut nodes, &mut arrows, Ghost(n4), Ghost(r4));
    proof {
        reveal_strlit("edges");
        reveal_strlit("unconsumedProvides");
        reveal_strlit("unprovidedConsumes");
        reveal_strlit("unresolvedConsumes");
        reveal_strlit("externalConsumes");
        reveal_strlit("ambiguousConsumes");
        assert(n4 + bucket_draws(a.ambiguous_consumes@, false, Role::Ambiguous, scope, top) == node_contribs(*a, scope, top));
        assert(r4 + bucket_draws_arrows(a.ambiguous_consumes@, false, scope, top) == arrow_contribs(*a, scope, top));
    }
    let ghost mn = nodes@;
    let ghost ma = arrows@;
    let ghost ms = sources0@;
    proof {
        assert(tie_free(mn));
        assert(tie_free(ma));
        assert(tie_free(ms));
    }
    let nodes = sort_ranked(nodes);
    let arrows = sort_ranked(arrows);
    let sources = sort_ranked(sources0);
    proof {
        lemma_sorted_merges(node_contribs(*a, scope, top), mn, nodes@);
        lemma_sorted_gathers(arrow_contribs(*a, scope, top), ma, arrows@);
        lemma_sorted_sources(a.trees@, ms, sources@);
    }
    let counts = vec![c0, c1, c2, c3, c4, c5];
    JoinGraph { sources, nodes, arrows, counts }
}

/// No two trees carry the same source id.
pub open spec fn ids_distinct(trees: Seq<TreeSource>) -> bool {
    forall|a: int, b: int|
        0 <= a < trees.len() && 0 <= b < trees.len() && a != b && (#[trigger] trees[a]).source_id is Some && (
        #[trigger] trees[b]).source_id is Some ==> trees[a].source_id->0@ != trees[b].source_id->0@
}

proof fn lemma_last_zero_unique(trees: Seq<TreeSource>, s: Seq<char>, t: int, n: int)
    requires
        0 <= t < n <= trees.len(),
        names(trees[t], s),
        forall|u: int| 0 <= u < n && u != t ==> !#[trigger] names(trees[u], s),
    ensures
        last_zero(trees, s, n) == trees[t].join_contribution_zero,
    decreases n,
{
    if n - 1 != t {
        assert(!names(trees[n - 1], s));
        lemma_last_zero_unique(trees, s, t, n - 1);
    }
}

proof fn lemma_names_distinct(trees: Seq<TreeSource>, s: Seq<char>, t: int)
    requires
        ids_distinct(trees),
        0 <= t < trees.len(),
        names(trees[t], s),
    ensures
        forall|u: int| 0 <= u < trees.len() && u != t ==> !#[trigger] names(trees[u], s),
{
    assert forall|u: int| 0 <= u < trees.len() && u != t implies !#[trigger] names(trees[u], s) by {
        if names(trees[u], s) {
            assert(trees[u].source_id is Some && trees[t].source_id is Some);
        }
    }
}

/// The tree a source id names is one tree, and the other list holds it too.
proof fn lemma_sources_transfer(t1: Seq<TreeSource>, t2: Seq<TreeSource>, out: Seq<SourceRow>)
    requires
        t1.to_multiset() == t2.to_multiset(),
        ids_distinct(t1),
        ids_distinct(t2),
        sources_of(t1, out),
    ensures
        sources_of(t2, out),
{
    broadcast use vstd::seq_lib::group_to_multiset_ensures;

    let n1 = t1.len() as int;
    let n2 = t2.len() as int;
    assert forall|i: int| 0 <= i < out.len() implies named_in(t2, (#[trigger] out[i]).source@, n2) && out[i].zero == last_zero(t2, out[i].source@, n2) by {
        let s = out[i].source@;
        assert(named_in(t1, s, n1));
        let t = choose|t: int| 0 <= t < n1 && #[trigger] names(t1[t], s);
        vstd::seq_lib::to_multiset_contains(t1, t1[t]);
        assert(t1.contains(t1[t]));
        vstd::seq_lib::to_multiset_contains(t2, t1[t]);
        let u = choose|u: int| 0 <= u < t2.len() && t2[u] == t1[t];
        assert(names(t2[u], s));
        lemma_names_distinct(t1, s, t);
        lemma_names_distinct(t2, s, u);
        lemma_last_zero_unique(t1, s, t, n1);
        lemma_last_zero_unique(t2, s, u, n2);
    }
    assert forall|u: int| 0 <= u < n2 && (#[trigger] t2[u]).source_id is Some implies listed(out, t2[u].source_id->0@) by {
        vstd::seq_lib::to_multiset_contains(t2, t2[u]);
        vstd::seq_lib::to_multiset_contains(t1, t2[u]);
        let t = choose|t: int| 0 <= t < t1.len() && t1[t] == t2[u];
        assert(t1[t].source_id is Some);
    }
}

/// The join picture does not depend on the order of the run's trees when their source ids are
/// distinct: with the same edges and buckets, any picture of one run is a picture of the other,
/// so the two runs are drawn by the same relation.
pub proof fn law_picture_ignores_tree_order(a1: JoinAnalysis, a2: JoinAnalysis, scope: Option<&str>, top: usize, g: JoinGraph)
    requires
        a1.trees@.to_multiset() == a2.trees@.to_multiset(),
        ids_distinct(a1.trees@),
        a1.edges@ == a2.edges@,
        a1.unconsumed_provides@ == a2.unconsumed_provides@,
        a1.unprovided_consumes@ == a2.unprovided_consumes@,
        a1.unresolved_consumes@ == a2.unresolved_consumes@,
        a1.external_consumes@ == a2.external_consumes@,
        a1.ambiguous_consumes@ == a2.ambiguous_consumes@,
        graph_of(a1, scope, top, g),
    ensures
        graph_of(a2, scope, top, g),
{
    broadcast use vstd::seq_lib::group_to_multiset_ensures;

    let t1 = a1.trees@;
    let t2 = a2.trees@;
    assert(ids_distinct(t2)) by {
        assert forall|a: int, b: int|
            0 <= a < t2.len() && 0 <= b < t2.len() && a != b && (#[trigger] t2[a]).source_id is Some && (#[trigger] t2[b]).source_id is Some implies t2[a].source_id->0@ != t2[b].source_id->0@ by {
            if t2[a].source_id->0@ == t2[b].source_id->0@ {
                let s = t2[a].source_id->0@;
                vstd::seq_lib::to_multiset_contains(t2, t2[a]);
                vstd::seq_lib::to_multiset_contains(t1, t2[a]);
                let x = choose|x: int| 0 <= x < t1.len() && t1[x] == t2[a];
                assert(names(t1[x], s));
                lemma_names_distinct(t1, s, x);
                // Both trees of `t2` named `s` come from the one tree of `t1` named `s`, so the
                // multiset holds it twice, where `t1` holds it once.
                lemma_count_named(t1, s, x);
                assert(t2[b] == t2[a]) by {
                    vstd::seq_lib::to_multiset_contains(t2, t2[b]);
                    vstd::seq_lib::to_multiset_contains(t1, t2[b]);
                    let y = choose|y: int| 0 <= y < t1.len() && t1[y] == t2[b];
                    assert(names(t1[y], s));
                    assert(y == x);
                }
                lemma_count_two(t2, a, b);
            }
        }
    }
    lemma_sources_transfer(t1, t2, g.sources@);
}

proof fn lemma_count_named(trees: Seq<TreeSource>, s: Seq<char>, x: int)
    requires
        0 <= x < trees.len(),
        forall|u: int| 0 <= u < trees.len() && u != x ==> !#[trigger] names(trees[u], s),
        names(trees[x], s),
    ensures
        trees.to_multiset().count(trees[x]) == 1,
    decreases trees.len(),
{
    broadcast use vstd::seq_lib::group_to_multiset_ensures;

    let last = trees.len() - 1;
    let rest = trees.drop_last();
    assert(trees =~= rest.push(trees[last]));
    vstd::seq_lib::to_multiset_build(rest, trees[last]);
    if x == last {
        assert(!rest.contains(trees[x])) by {
            if rest.contains(trees[x]) {
                let u = choose|u: int| 0 <= u < rest.len() && rest[u] == trees[x];
                assert(names(trees[u], s));
            }
        }
        vstd::seq_lib::to_multiset_contains(rest, trees[x]);
    } else {
        lemma_count_named(rest, s, x);
        assert(rest[x] == trees[x]);
        assert(trees[last] != trees[x]) by {
            assert(!names(trees[last], s));
        }
    }
}

proof fn lemma_count_two(trees: Seq<TreeSource>, a: int, b: int)
    requires
        0 <= a < trees.len(),
        0 <= b < trees.len(),
        a != b,
        trees[a] == trees[b],
    ensures
        trees.to_multiset().count(trees[a]) >= 2,
{
    broadcast use vstd::seq_lib::group_to_multiset_ensures;

    vstd::seq_lib::to_multiset_remove(trees, a);
    let r = trees.remove(a);
    let j = if b < a { b } else { b - 1 };
    assert(r[j] == trees[b]);
    vstd::seq_lib::to_multiset_contains(r, trees[b]);
}

} // verus!
