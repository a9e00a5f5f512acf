//! The cross-layer join as a mermaid flowchart: one subgraph per analyzed source, every joined
//! relation and every bucket member drawn as a node with its role, capped per bucket and disclosed.
pub mod model;
pub mod collect;
pub mod relations;
pub mod picture;
pub mod mermaid;
pub mod determined;

use vstd::prelude::*;

use mermaid::{counts_ok, document, render};
use model::{JoinAnalysis, Role};
use picture::{build, graph_of, JoinGraph};

verus! {

/// The side and role a non-edge bucket's rows are drawn with, by the bucket's wire name.
pub open spec fn role_of_bucket(bucket: Seq<char>) -> Option<(bool, Role)> {
    if bucket == "unconsumedProvides"@ {
        Some((true, Role::Unconsumed))
    } else if bucket == "unprovidedConsumes"@ {
        Some((false, Role::Unprovided))
    } else if bucket == "unresolvedConsumes"@ {
        Some((false, Role::Unresolved))
    } else if bucket == "externalConsumes"@ {
        Some((false, Role::External))
    } else if bucket == "ambiguousConsumes"@ {
        Some((false, Role::Ambiguous))
    } else {
        None
    }
}

/// Which side (`true` for provide) and role a bucket's nodes get; `None` for a name that is not one
/// of the five non-edge buckets, which then draws nothing.
pub fn bucket_role(bucket: &str) -> (r: Option<(bool, Role)>)
    ensures
        r == role_of_bucket(bucket@),
{
    if crate::text::str_eq(bucket, "unconsumedProvides") {
        Some((true, Role::Unconsumed))
    } else if crate::text::str_eq(bucket, "unprovidedConsumes") {
        Some((false, Role::Unprovided))
    } else if crate::text::str_eq(bucket, "unresolvedConsumes") {
        Some((false, Role::Unresolved))
    } else if crate::text::str_eq(bucket, "externalConsumes") {
        Some((false, Role::External))
    } else if crate::text::str_eq(bucket, "ambiguousConsumes") {
        Some((false, Role::Ambiguous))
    } else {
        None
    }
}

proof fn lemma_counts_ok(a: JoinAnalysis, scope: Option<&str>, top: usize, g: JoinGraph)
    requires
        graph_of(a, scope, top, g),
    ensures
        counts_ok(g.counts@),
{
    let c = g.counts@;
    assert(c[0].in_scope <= c[0].total);
    assert(c[1].in_scope <= c[1].total);
    assert(c[2].in_scope <= c[2].total);
    assert(c[3].in_scope <= c[3].total);
    assert(c[4].in_scope <= c[4].total);
    assert(c[5].in_scope <= c[5].total);
}

/// The join domain: a run's cross-layer join as a mermaid flowchart. `tool` is the version line
/// the header names.
pub fn project(a: &JoinAnalysis, scope: Option<&str>, top: usize, tool: &str) -> (r: String)
    ensures
        exists|g: JoinGraph| graph_of(*a, scope, top, g) && r@ == #[trigger] document(g, scope, top, tool@),
{
    let g = build(a, scope, top);
    proof {
        lemma_counts_ok(*a, scope, top, g);
    }
    let out = render(&g, scope, top, tool);
    proof {
        assert(graph_of(*a, scope, top, g) && out@ == document(g, scope, top, tool@));
    }
    out
}

} // verus!
