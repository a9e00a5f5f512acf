//! The join picture's data: the slice of an analysis run the cross-layer projection reads, and the
//! graph it draws — nodes keyed by (source, side, kind, key) carrying a role, and directed edges.
use vstd::prelude::*;

use crate::sort::Ranked;
use crate::text::{
    lemma_lex_asym, lemma_lex_irreflexive, lemma_lex_total, lemma_lex_trans, lex_lt, order_str, Cmp,
};

verus! {

/// One analyzed tree: its source id (when it has one) and whether it contributed nothing the join
/// could use.
pub struct TreeSource {
    pub source_id: Option<String>,
    pub join_contribution_zero: bool,
}

/// One side of a joined edge.
pub struct Endpoint {
    pub source: Option<String>,
    pub file: Option<String>,
}

/// One resolved call site of the join (`crossLayer.edges[]`).
pub struct JoinEdge {
    pub kind: Option<String>,
    pub key: Option<String>,
    pub from: Endpoint,
    pub to: Endpoint,
    pub low_confidence: Option<String>,
}

/// One row of a non-edge bucket. `candidate_sources` are the sources of the bucket's candidates,
/// `None` where a candidate names none.
pub struct BucketItem {
    pub key: Option<String>,
    pub raw: Option<String>,
    pub source: Option<String>,
    pub kind: Option<String>,
    pub file: Option<String>,
    pub line: Option<u64>,
    pub candidate_sources: Vec<Option<String>>,
}

/// What the join projection reads of a run: its trees, the joined edges, and the five non-edge
/// buckets.
pub struct JoinAnalysis {
    pub trees: Vec<TreeSource>,
    pub edges: Vec<JoinEdge>,
    pub unconsumed_provides: Vec<BucketItem>,
    pub unprovided_consumes: Vec<BucketItem>,
    pub unresolved_consumes: Vec<BucketItem>,
    pub external_consumes: Vec<BucketItem>,
    pub ambiguous_consumes: Vec<BucketItem>,
}

/// What a node is in the picture; also its `classDef`.
#[derive(PartialEq, Eq, Structural, Clone, Copy)]
pub enum Role {
    Linked,
    Candidate,
    Unconsumed,
    Unprovided,
    Ambiguous,
    Unresolved,
    External,
}

/// Strongest first: when one node is reached twice it keeps the stronger role.
pub open spec fn role_rank(r: Role) -> u8 {
    match r {
        Role::Linked => 0,
        Role::Candidate => 1,
        Role::Unconsumed => 2,
        Role::Unprovided => 3,
        Role::Ambiguous => 4,
        Role::Unresolved => 5,
        Role::External => 6,
    }
}

/// The role's name, as labels and class names spell it.
pub open spec fn role_name(r: Role) -> Seq<char> {
    match r {
        Role::Linked => "linked"@,
        Role::Candidate => "candidate"@,
        Role::Unconsumed => "unconsumed"@,
        Role::Unprovided => "unprovided"@,
        Role::Ambiguous => "ambiguous"@,
        Role::Unresolved => "unresolved"@,
        Role::External => "external"@,
    }
}

impl Role {
    /// [`role_rank`].
    pub fn rank(self) -> (r: u8)
        ensures
            r == role_rank(self),
    {
        match self {
            Role::Linked => 0,
            Role::Candidate => 1,
            Role::Unconsumed => 2,
            Role::Unprovided => 3,
            Role::Ambiguous => 4,
            Role::Unresolved => 5,
            Role::External => 6,
        }
    }

    /// [`role_name`].
    pub fn name(self) -> (r: &'static str)
        ensures
            r@ == role_name(self),
    {
        match self {
            Role::Linked => "linked",
            Role::Candidate => "candidate",
            Role::Unconsumed => "unconsumed",
            Role::Unprovided => "unprovided",
            Role::Ambiguous => "ambiguous",
            Role::Unresolved => "unresolved",
            Role::External => "external",
        }
    }
}

/// A node: (source, side, kind, key). `provide` is the side; `consume` sorts before `provide`.
pub struct NodeKey {
    pub source: String,
    pub provide: bool,
    pub kind: String,
    pub key: String,
}

/// Two keys name the same node.
pub open spec fn same_node(a: NodeKey, b: NodeKey) -> bool {
    a.source@ == b.source@ && a.provide == b.provide && a.kind@ == b.kind@ && a.key@ == b.key@
}

/// The node order: source, then side, then kind, then key.
pub open spec fn node_lt(a: NodeKey, b: NodeKey) -> bool {
    lex_lt(a.source@, b.source@) || (a.source@ == b.source@ && ((!a.provide && b.provide) || (
    a.provide == b.provide && (lex_lt(a.kind@, b.kind@) || (a.kind@ == b.kind@ && lex_lt(
        a.key@,
        b.key@,
    ))))))
}

pub proof fn lemma_node_order(a: NodeKey, b: NodeKey, c: NodeKey)
    ensures
        !node_lt(a, a),
        node_lt(a, b) && node_lt(b, c) ==> node_lt(a, c),
        node_lt(a, b) || node_lt(b, a) || same_node(a, b),
        !(node_lt(a, b) && node_lt(b, a)),
{
    lemma_lex_irreflexive(a.source@);
    lemma_lex_irreflexive(a.kind@);
    lemma_lex_irreflexive(a.key@);
    lemma_lex_total(a.source@, b.source@);
    lemma_lex_total(a.kind@, b.kind@);
    lemma_lex_total(a.key@, b.key@);
    lemma_lex_asym(a.source@, b.source@);
    lemma_lex_asym(a.kind@, b.kind@);
    lemma_lex_asym(a.key@, b.key@);
    if lex_lt(a.source@, b.source@) && lex_lt(b.source@, c.source@) {
        lemma_lex_trans(a.source@, b.source@, c.source@);
    }
    if lex_lt(a.kind@, b.kind@) && lex_lt(b.kind@, c.kind@) {
        lemma_lex_trans(a.kind@, b.kind@, c.kind@);
    }
    if lex_lt(a.key@, b.key@) && lex_lt(b.key@, c.key@) {
        lemma_lex_trans(a.key@, b.key@, c.key@);
    }
}

/// Three-way node comparison.
pub fn node_order(a: &NodeKey, b: &NodeKey) -> (r: Cmp)
    ensures
        r == Cmp::Less <==> node_lt(*a, *b),
        r == Cmp::Equal <==> same_node(*a, *b),
        r == Cmp::Greater <==> node_lt(*b, *a),
{
    proof {
        lemma_node_order(*a, *b, *b);
        lemma_node_order(*b, *a, *a);
    }
    let s = order_str(a.source.as_str(), b.source.as_str());
    if s != Cmp::Equal {
        proof {
            lemma_lex_asym(a.source@, b.source@);
            lemma_lex_irreflexive(a.source@);
        }
        return s;
    }
    if a.provide != b.provide {
        return if b.provide {
            Cmp::Less
        } else {
            Cmp::Greater
        };
    }
    let k = order_str(a.kind.as_str(), b.kind.as_str());
    if k != Cmp::Equal {
        proof {
            lemma_lex_asym(a.kind@, b.kind@);
            lemma_lex_irreflexive(a.source@);
        }
        return k;
    }
    proof {
        lemma_lex_irreflexive(a.source@);
        lemma_lex_irreflexive(a.kind@);
        lemma_lex_asym(a.key@, b.key@);
    }
    order_str(a.key.as_str(), b.key.as_str())
}

/// A drawn relation.
pub struct GraphEdge {
    pub from: NodeKey,
    pub to: NodeKey,
    pub dotted: bool,
    pub label: Option<String>,
}

/// Two edges are the same relation.
pub open spec fn same_edge(a: GraphEdge, b: GraphEdge) -> bool {
    same_node(a.from, b.from) && same_node(a.to, b.to) && a.dotted == b.dotted && match (a.label, b.label) {
        (None, None) => true,
        (Some(x), Some(y)) => x@ == y@,
        _ => false,
    }
}

/// The optional-label order: absent first, then by text.
pub open spec fn label_lt(a: Option<String>, b: Option<String>) -> bool {
    match (a, b) {
        (None, Some(_)) => true,
        (Some(x), Some(y)) => lex_lt(x@, y@),
        _ => false,
    }
}

/// The edge order: from, to, dotted (solid first), label.
pub open spec fn edge_lt(a: GraphEdge, b: GraphEdge) -> bool {
    node_lt(a.from, b.from) || (same_node(a.from, b.from) && (node_lt(a.to, b.to) || (same_node(
        a.to,
        b.to,
    ) && ((!a.dotted && b.dotted) || (a.dotted == b.dotted && label_lt(a.label, b.label))))))
}

pub proof fn lemma_edge_order(a: GraphEdge, b: GraphEdge, c: GraphEdge)
    ensures
        !edge_lt(a, a),
        edge_lt(a, b) && edge_lt(b, c) ==> edge_lt(a, c),
        edge_lt(a, b) || edge_lt(b, a) || same_edge(a, b),
{
    lemma_node_order(a.from, b.from, c.from);
    lemma_node_order(b.from, c.from, a.from);
    lemma_node_order(a.to, b.to, c.to);
    lemma_node_order(b.to, c.to, a.to);
    match (a.label, b.label, c.label) {
        (Some(x), Some(y), Some(z)) => {
            lemma_lex_irreflexive(x@);
            lemma_lex_total(x@, y@);
            if lex_lt(x@, y@) && lex_lt(y@, z@) {
                lemma_lex_trans(x@, y@, z@);
            }
        },
        (Some(x), Some(y), None) => {
            lemma_lex_irreflexive(x@);
            lemma_lex_total(x@, y@);
        },
        (Some(x), _, _) => {
            lemma_lex_irreflexive(x@);
        },
        _ => {},
    }
    if same_node(a.from, b.from) && same_node(b.from, c.from) {
        assert(same_node(a.from, c.from));
    }
}

impl Ranked for NodeKey {
    open spec fn before(self, other: Self) -> bool {
        node_lt(self, other)
    }

    open spec fn ties(self, other: Self) -> bool {
        same_node(self, other)
    }

    fn is_before(&self, other: &Self) -> (r: bool) {
        node_order(self, other) == Cmp::Less
    }

    proof fn lemma_order(a: Self, b: Self, c: Self) {
        lemma_node_order(a, b, c);
    }
}

} // verus!
