//! From join rows to relations: each row's identity and scope, and the nodes and arrows the kept
//! relations of every bucket contribute to the picture.
use vstd::prelude::*;

use super::collect::{count_is, distinct, ent, ents, kept_upto, BucketCount};
use super::model::{BucketItem, GraphEdge, JoinAnalysis, JoinEdge, NodeKey, Role};
use crate::output::finding::text_or_empty;
use crate::output::rule_prose::{clone_text, ov};
use crate::text::{is_prefix, owned, push_char, push_str, starts_with};

verus! {

broadcast use vstd::seq_lib::group_seq_properties;

/// The scope prefix is the start of field `f`.
pub open spec fn prefixes(scope: Option<&str>, f: Option<String>) -> bool {
    match (scope, f) {
        (Some(p), Some(x)) => is_prefix(p@, x@),
        _ => false,
    }
}

fn prefix_of(scope: Option<&str>, f: &Option<String>) -> (r: bool)
    ensures
        r == prefixes(scope, *f),
{
    match (scope, f) {
        (Some(p), Some(x)) => starts_with(x.as_str(), p),
        _ => false,
    }
}

/// A joined row names its kind, its key and both sources.
pub open spec fn edge_labelable(e: JoinEdge) -> bool {
    e.kind is Some && e.key is Some && e.from.source is Some && e.to.source is Some
}

/// A joined row's relation identity.
pub open spec fn edge_id(e: JoinEdge) -> Seq<char> {
    e.from.source->0@ + seq!['\u{1}'] + e.to.source->0@ + seq!['\u{1}'] + e.kind->0@ + seq!['\u{1}']
        + e.key->0@ + seq!['\u{1}'] + text_or_empty(e.low_confidence)
}

/// A joined row is in scope: no scope, or a source or file under the prefix.
pub open spec fn edge_in_scope(e: JoinEdge, scope: Option<&str>) -> bool {
    scope is None || prefixes(scope, e.from.source) || prefixes(scope, e.to.source) || prefixes(
        scope,
        e.from.file,
    ) || prefixes(scope, e.to.file)
}

/// What row `e` contributes to the census.
pub open spec fn edge_entry(e: JoinEdge, scope: Option<&str>) -> Option<(Seq<char>, bool)> {
    if edge_labelable(e) {
        Some((edge_id(e), edge_in_scope(e, scope)))
    } else {
        None
    }
}

/// What the joined rows contribute to the census.
pub open spec fn edge_census(edges: Seq<JoinEdge>, scope: Option<&str>) -> Seq<Option<(Seq<char>, bool)>> {
    edges.map_values(|e: JoinEdge| edge_entry(e, scope))
}

/// What labels a bucket row: its key when it has one, else its raw expression; never an empty text.
pub open spec fn label_of(it: BucketItem) -> Option<String> {
    match it.key {
        Some(k) => if k@.len() > 0 {
            Some(k)
        } else {
            None
        },
        None => match it.raw {
            Some(r) => if r@.len() > 0 {
                Some(r)
            } else {
                None
            },
            None => None,
        },
    }
}

/// A bucket row has a label, a source and a kind.
pub open spec fn item_labelable(it: BucketItem) -> bool {
    label_of(it) is Some && it.source is Some && it.kind is Some
}

/// A bucket row's relation identity.
pub open spec fn item_id(it: BucketItem) -> Seq<char> {
    it.source->0@ + seq!['\u{1}'] + it.kind->0@ + seq!['\u{1}'] + label_of(it)->0@
}

/// A bucket row is in scope: no scope, or its source or file under the prefix.
pub open spec fn item_in_scope(it: BucketItem, scope: Option<&str>) -> bool {
    scope is None || prefixes(scope, it.source) || prefixes(scope, it.file)
}

/// What bucket row `it` contributes to the census.
pub open spec fn item_entry(it: BucketItem, scope: Option<&str>) -> Option<(Seq<char>, bool)> {
    if item_labelable(it) {
        Some((item_id(it), item_in_scope(it, scope)))
    } else {
        None
    }
}

/// What one bucket's rows contribute to the census.
pub open spec fn item_census(items: Seq<BucketItem>, scope: Option<&str>) -> Seq<Option<(Seq<char>, bool)>> {
    items.map_values(|it: BucketItem| item_entry(it, scope))
}

fn sep_push(out: &mut String, s: &str)
    ensures
        final(out)@ == old(out)@ + seq!['\u{1}'] + s@,
{
    push_char(out, '\u{1}');
    push_str(out, s);
}

/// The census entries of the joined rows.
pub fn edge_entries(edges: &Vec<JoinEdge>, scope: Option<&str>) -> (r: Vec<Option<(String, bool)>>)
    ensures
        ents(r@) == edge_census(edges@, scope),
{
    let mut out: Vec<Option<(String, bool)>> = Vec::new();
    let mut i: usize = 0;
    while i < edges.len()
        invariant
            i <= edges@.len(),
            out@.len() == i,
            forall|k: int| 0 <= k < i ==> ent(#[trigger] out@[k]) == edge_entry(edges@[k], scope),
        decreases edges@.len() - i,
    {
        let e = &edges[i];
        let entry = match (&e.kind, &e.key, &e.from.source, &e.to.source) {
            (Some(kind), Some(key), Some(fs), Some(ts)) => {
                let mut id = owned(fs.as_str());
                sep_push(&mut id, ts.as_str());
                sep_push(&mut id, kind.as_str());
                sep_push(&mut id, key.as_str());
                match &e.low_confidence {
                    Some(low) => sep_push(&mut id, low.as_str()),
                    None => push_char(&mut id, '\u{1}'),
                }
                let inside = scope.is_none() || prefix_of(scope, &e.from.source) || prefix_of(
                    scope,
                    &e.to.source,
                ) || prefix_of(scope, &e.from.file) || prefix_of(scope, &e.to.file);
                proof {
                    assert(id@ =~= edge_id(*e));
                }
                Some((id, inside))
            },
            _ => None,
        };
        out.push(entry);
        i = i + 1;
    }
    proof {
        assert(ents(out@) =~= edge_census(edges@, scope));
    }
    out
}

/// The label of a bucket row.
pub fn item_label(it: &BucketItem) -> (r: Option<String>)
    ensures
        ov(r) == ov(label_of(*it)),
{
    match &it.key {
        Some(k) => if k.as_str().is_empty() {
            None
        } else {
            Some(k.clone())
        },
        None => match &it.raw {
            Some(raw) => if raw.as_str().is_empty() {
                None
            } else {
                Some(raw.clone())
            },
            None => None,
        },
    }
}

/// The census entries of one bucket's rows.
pub fn item_entries(items: &Vec<BucketItem>, scope: Option<&str>) -> (r: Vec<Option<(String, bool)>>)
    ensures
        ents(r@) == item_census(items@, scope),
{
    let mut out: Vec<Option<(String, bool)>> = Vec::new();
    let mut i: usize = 0;
    while i < items.len()
        invariant
            i <= items@.len(),
            out@.len() == i,
            forall|k: int| 0 <= k < i ==> ent(#[trigger] out@[k]) == item_entry(items@[k], scope),
        decreases items@.len() - i,
    {
        let it = &items[i];
        let entry = match (item_label(it), &it.source, &it.kind) {
            (Some(label), Some(source), Some(kind)) => {
                let mut id = owned(source.as_str());
                sep_push(&mut id, kind.as_str());
                sep_push(&mut id, label.as_str());
                let inside = scope.is_none() || prefix_of(scope, &it.source) || prefix_of(
                    scope,
                    &it.file,
                );
                proof {
                    assert(id@ =~= item_id(*it));
                }
                Some((id, inside))
            },
            _ => None,
        };
        out.push(entry);
        i = i + 1;
    }
    proof {
        assert(ents(out@) =~= item_census(items@, scope));
    }
    out
}

} // verus!
