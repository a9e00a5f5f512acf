//! The join picture as mermaid text. Nothing is decided here: what is in scope, what was capped and
//! what could not be labelled arrive already decided, and every census number is printed twice, as
//! a `%%` comment and, for what the picture leaves out, as a visible note node.
use vstd::prelude::*;

use super::collect::BucketCount;
use super::model::{role_name, Role};
use super::picture::{nv, DrawnNode, JoinGraph, NodeV, SourceRow};
use crate::graph::escape::{escape, escape_text};
use crate::output::rule_prose::ov;
use crate::text::{dec, owned, push_dec_wide, push_str, push_usize, str_eq};
use super::model::GraphEdge;

verus! {

broadcast use vstd::seq_lib::group_seq_properties;

/// The header's first line.
pub const HEADER_LEAD: &'static str = "%% zzop graph — the cross-layer join as a mermaid flowchart (paste into any mermaid viewer).\n";

/// What the header says when no scope is set.
pub const NO_SCOPE: &'static str = "(none — every source)";

/// The line that introduces the per-bucket census.
pub const CENSUS_LEAD: &'static str = "%% relations drawn/inScope/total (and the call sites they aggregate):\n";

/// What a node is, and where per-site detail lives.
pub const NODE_NOTE: &'static str = "%% a node is (source, side, kind, key): CALL SITES ARE AGGREGATED and no file/line appears here — use `zzop facts` or `zzop cross` for per-site detail.\n";

/// What this surface cannot carry.
pub const ABSENT_NOTE: &'static str = "%% NOT rendered by this surface: crossLayerFindings (the drift/near-miss VERDICTS — findings about the join, not members of it), hostRekeyCounts, warnings/configWarnings/disclosure.\n";

/// The tail of a census line for a bucket with rows that could not be labelled.
pub const UNLABELABLE_TAIL: &'static str = " with neither key nor raw — not labelable, never guessed)";

/// Why a source drew nothing: it extracted nothing the join can use.
pub const BLIND_SOURCE: &'static str = "extracted no joinable io — invisible to the join (blindness, not an empty contract)";

/// Why a source drew nothing: the scope or the cap left none of its rows.
pub const EMPTY_VIEW: &'static str = "no rows in this view (see the scope/top disclosure above)";

/// The seven role classes and the note class, each declared once.
pub const CLASS_DEFS: &'static str = "  classDef linked fill:#e6f4ea,stroke:#1e7d32,color:#111\n  classDef candidate fill:#f1f8e9,stroke:#558b2f,color:#111\n  classDef unconsumed fill:#fff4e5,stroke:#b26a00,color:#111\n  classDef unprovided fill:#fdecea,stroke:#c62828,color:#111\n  classDef ambiguous fill:#f3e5f5,stroke:#7b1fa2,color:#111\n  classDef unresolved fill:#eceff1,stroke:#546e7a,color:#111\n  classDef external fill:#e8eaf6,stroke:#3949ab,color:#111\n  classDef note fill:#ffffff,stroke:#111,color:#111,stroke-dasharray:4 3\n";

/// One bucket's census line.
pub open spec fn census_line(c: BucketCount) -> Seq<char> {
    "%%   "@ + c.bucket@ + ": "@ + dec(c.shown as nat) + "/"@ + dec(c.in_scope as nat) + "/"@ + dec(c.total as nat)
        + " from "@ + dec(c.rows as nat) + " site(s)"@ + (if c.unlabelable > 0 {
        " (+"@ + dec(c.unlabelable as nat) + UNLABELABLE_TAIL@
    } else {
        Seq::empty()
    }) + "\n"@
}

/// The census lines of the first `n` buckets.
pub open spec fn census_lines(counts: Seq<BucketCount>, n: int) -> Seq<char>
    decreases n,
{
    if n <= 0 {
        Seq::empty()
    } else {
        census_lines(counts, n - 1) + census_line(counts[n - 1])
    }
}

/// What the header says the scope is.
pub open spec fn scope_text(scope: Option<&str>) -> Seq<char> {
    match scope {
        Some(p) => p@,
        None => NO_SCOPE@,
    }
}

/// The `%%` header: what the document is, the tool, the scope and cap, the census, and what is
/// structurally absent.
pub open spec fn header_text(counts: Seq<BucketCount>, scope: Option<&str>, top: usize, tool: Seq<char>) -> Seq<char> {
    header_lead(scope, top, tool) + census_lines(counts, counts.len() as int) + NODE_NOTE@ + ABSENT_NOTE@
}

/// The header up to the census lines.
pub open spec fn header_lead(scope: Option<&str>, top: usize, tool: Seq<char>) -> Seq<char> {
    HEADER_LEAD@ + "%% tool: "@ + tool + "\n"@ + "%% scope: "@ + scope_text(scope) + "\n"@ + "%% top: "@ + dec(top as nat)
        + " drawn relations per bucket\n"@ + CENSUS_LEAD@
}

/// A node's label: its role, kind and key, made safe for a quoted label.
pub open spec fn node_label(d: DrawnNode) -> Seq<char> {
    escape_text(role_name(d.role) + " · "@ + d.key.kind@ + " "@ + d.key.key@)
}

/// The statement that draws node `j`: a rectangle for a provider, a stadium for a consumer.
pub open spec fn node_line(j: nat, d: DrawnNode) -> Seq<char> {
    "    n"@ + dec(j) + (if d.key.provide {
        "[\""@ + node_label(d) + "\"]"@
    } else {
        "([\""@ + node_label(d) + "\"])"@
    }) + ":::"@ + role_name(d.role) + "\n"@
}

/// The statements for the nodes of source `src` among the first `j` nodes.
pub open spec fn members_text(nodes: Seq<DrawnNode>, src: Seq<char>, j: int) -> Seq<char>
    decreases j,
{
    if j <= 0 {
        Seq::empty()
    } else {
        members_text(nodes, src, j - 1) + if nodes[j - 1].key.source@ == src {
            node_line((j - 1) as nat, nodes[j - 1])
        } else {
            Seq::empty()
        }
    }
}

/// How many of the first `j` nodes belong to source `src`.
pub open spec fn members(nodes: Seq<DrawnNode>, src: Seq<char>, j: int) -> nat
    decreases j,
{
    if j <= 0 {
        0
    } else {
        members(nodes, src, j - 1) + if nodes[j - 1].key.source@ == src {
            1nat
        } else {
            0nat
        }
    }
}

/// Which empty state a source with no drawn node is in.
pub open spec fn empty_reason(zero: bool) -> Seq<char> {
    if zero {
        BLIND_SOURCE@
    } else {
        EMPTY_VIEW@
    }
}

/// Source `i`'s subgraph: its nodes, or a note saying which zero it is.
pub open spec fn subgraph_text(i: nat, row: SourceRow, nodes: Seq<DrawnNode>) -> Seq<char> {
    "  subgraph s"@ + dec(i) + "[\""@ + escape_text(row.source@) + "\"]\n"@ + members_text(nodes, row.source@, nodes.len() as int)
        + (if members(nodes, row.source@, nodes.len() as int) == 0 {
        "    s"@ + dec(i) + "note[\""@ + escape_text(empty_reason(row.zero)) + "\"]:::note\n"@
    } else {
        Seq::empty()
    }) + "  end\n"@
}

/// The subgraphs of the first `n` sources.
pub open spec fn subgraphs_text(sources: Seq<SourceRow>, nodes: Seq<DrawnNode>, n: int) -> Seq<char>
    decreases n,
{
    if n <= 0 {
        Seq::empty()
    } else {
        subgraphs_text(sources, nodes, n - 1) + subgraph_text((n - 1) as nat, sources[n - 1], nodes)
    }
}

/// The position of the first of the first `j` nodes that is `k`, or -1.
pub open spec fn position(nodes: Seq<DrawnNode>, k: NodeV, j: int) -> int
    decreases j,
{
    if j <= 0 {
        -1
    } else {
        let r = position(nodes, k, j - 1);
        if r >= 0 {
            r
        } else if nv(nodes[j - 1].key) == k {
            j - 1
        } else {
            -1
        }
    }
}

/// The connector of an arrow: solid or dotted, labelled or not.
pub open spec fn connector(dotted: bool, label: Option<Seq<char>>) -> Seq<char> {
    match label {
        None => if dotted {
            " -.-> "@
        } else {
            " --> "@
        },
        Some(l) => if dotted {
            " -. \""@ + escape_text(l) + "\" .-> "@
        } else {
            " -- \""@ + escape_text(l) + "\" --> "@
        },
    }
}

/// The statement that draws arrow `e`, or nothing when an endpoint is not drawn.
pub open spec fn arrow_line(nodes: Seq<DrawnNode>, e: GraphEdge) -> Seq<char> {
    let a = position(nodes, nv(e.from), nodes.len() as int);
    let b = position(nodes, nv(e.to), nodes.len() as int);
    if a >= 0 && b >= 0 {
        "  n"@ + dec(a as nat) + connector(e.dotted, ov(e.label)) + "n"@ + dec(b as nat) + "\n"@
    } else {
        Seq::empty()
    }
}

/// The statements for the first `q` arrows.
pub open spec fn arrows_text(nodes: Seq<DrawnNode>, arrows: Seq<GraphEdge>, q: int) -> Seq<char>
    decreases q,
{
    if q <= 0 {
        Seq::empty()
    } else {
        arrows_text(nodes, arrows, q - 1) + arrow_line(nodes, arrows[q - 1])
    }
}

/// `bucket shown/inScope` for each of the first `n` buckets that drew fewer relations than were in
/// scope.
pub open spec fn truncated(counts: Seq<BucketCount>, n: int) -> Seq<Seq<char>>
    decreases n,
{
    if n <= 0 {
        Seq::empty()
    } else {
        let c = counts[n - 1];
        let r = truncated(counts, n - 1);
        if c.in_scope > c.shown {
            r.push(c.bucket@ + " "@ + dec(c.shown as nat) + "/"@ + dec(c.in_scope as nat))
        } else {
            r
        }
    }
}

/// `items` joined by `", "`.
pub open spec fn comma_joined(items: Seq<Seq<char>>) -> Seq<char>
    decreases items.len(),
{
    if items.len() == 0 {
        Seq::empty()
    } else if items.len() == 1 {
        items[0]
    } else {
        comma_joined(items.drop_last()) + ", "@ + items.last()
    }
}

/// The relations of the first `n` buckets that the scope hid.
pub open spec fn hidden(counts: Seq<BucketCount>, n: int) -> int
    decreases n,
{
    if n <= 0 {
        0
    } else {
        hidden(counts, n - 1) + counts[n - 1].total - counts[n - 1].in_scope
    }
}

/// The visible notes: one for the cap when it dropped anything, one for the scope when set.
pub open spec fn notes(counts: Seq<BucketCount>, scope: Option<&str>, top: usize) -> Seq<Seq<char>> {
    let t = truncated(counts, counts.len() as int);
    let first: Seq<Seq<char>> = if t.len() > 0 {
        seq![
            "TRUNCATED — "@ + comma_joined(t) + " (drawn/inScope relations). Raise --top (now "@ + dec(top as nat)
                + ") or narrow --scope; `zzop facts` is uncapped."@,
        ]
    } else {
        Seq::empty()
    };
    match scope {
        Some(p) => first.push(
            "SCOPED to '"@ + p@ + "' — "@ + dec(hidden(counts, counts.len() as int) as nat)
                + " relation(s) outside the scope are not drawn."@,
        ),
        None => first,
    }
}

/// The statements for the first `n` notes.
pub open spec fn notes_text(ns: Seq<Seq<char>>, n: int) -> Seq<char>
    decreases n,
{
    if n <= 0 {
        Seq::empty()
    } else {
        notes_text(ns, n - 1) + "  disclosure"@ + dec((n - 1) as nat) + "[\""@ + escape_text(ns[n - 1]) + "\"]:::note\n"@
    }
}

/// The whole document: declaration, header, one subgraph per source, the arrows, the visible
/// notes and the class definitions.
pub open spec fn document(g: JoinGraph, scope: Option<&str>, top: usize, tool: Seq<char>) -> Seq<char> {
    let ns = notes(g.counts@, scope, top);
    "flowchart LR\n"@ + header_text(g.counts@, scope, top, tool) + subgraphs_text(
        g.sources@,
        g.nodes@,
        g.sources@.len() as int,
    ) + arrows_text(g.nodes@, g.arrows@, g.arrows@.len() as int) + notes_text(ns, ns.len() as int) + CLASS_DEFS@
}

/// No bucket has more relations in scope than it has at all.
pub open spec fn counts_ok(counts: Seq<BucketCount>) -> bool {
    forall|i: int| 0 <= i < counts.len() ==> (#[trigger] counts[i]).in_scope <= counts[i].total
}

fn push_census_line(out: &mut String, c: &BucketCount)
    ensures
        final(out)@ == old(out)@ + census_line(*c),
{
    let ghost before = out@;
    push_str(out, "%%   ");
    push_str(out, c.bucket);
    push_str(out, ": ");
    push_usize(out, c.shown);
    push_str(out, "/");
    push_usize(out, c.in_scope);
    push_str(out, "/");
    push_usize(out, c.total);
    push_str(out, " from ");
    push_usize(out, c.rows);
    push_str(out, " site(s)");
    if c.unlabelable > 0 {
        push_str(out, " (+");
        push_usize(out, c.unlabelable);
        push_str(out, UNLABELABLE_TAIL);
    }
    push_str(out, "\n");
    proof {
        assert(out@ =~= before + census_line(*c));
    }
}

fn push_header(out: &mut String, counts: &Vec<BucketCount>, scope: Option<&str>, top: usize, tool: &str)
    ensures
        final(out)@ == old(out)@ + header_text(counts@, scope, top, tool@),
{
    let mut h = owned(HEADER_LEAD);
    push_str(&mut h, "%% tool: ");
    push_str(&mut h, tool);
    push_str(&mut h, "\n");
    push_str(&mut h, "%% scope: ");
    match scope {
        Some(p) => push_str(&mut h, p),
        None => push_str(&mut h, NO_SCOPE),
    }
    push_str(&mut h, "\n");
    push_str(&mut h, "%% top: ");
    push_usize(&mut h, top);
    push_str(&mut h, " drawn relations per bucket\n");
    push_str(&mut h, CENSUS_LEAD);
    let ghost lead = h@;
    assert(lead == header_lead(scope, top, tool@));
    let mut i: usize = 0;
    while i < counts.len()
        invariant
            i <= counts@.len(),
            h@ == lead + census_lines(counts@, i as int),
        decreases counts@.len() - i,
    {
        push_census_line(&mut h, &counts[i]);
        proof {
            assert(h@ =~= lead + census_lines(counts@, i + 1));
        }
        i = i + 1;
    }
    push_str(&mut h, NODE_NOTE);
    push_str(&mut h, ABSENT_NOTE);
    push_str(out, h.as_str());
}

fn push_node_line(out: &mut String, j: usize, d: &DrawnNode)
    ensures
        final(out)@ == old(out)@ + node_line(j as nat, *d),
{
    let ghost start = out@;
    let mut raw = owned(d.role.name());
    push_str(&mut raw, " · ");
    push_str(&mut raw, d.key.kind.as_str());
    push_str(&mut raw, " ");
    push_str(&mut raw, d.key.key.as_str());
    let label = escape(raw.as_str());
    proof {
        assert(raw@ =~= role_name(d.role) + " · "@ + d.key.kind@ + " "@ + d.key.key@);
    }
    push_str(out, "    n");
    push_usize(out, j);
    if d.key.provide {
        push_str(out, "[\"");
        push_str(out, label.as_str());
        push_str(out, "\"]");
    } else {
        push_str(out, "([\"");
        push_str(out, label.as_str());
        push_str(out, "\"])");
    }
    push_str(out, ":::");
    push_str(out, d.role.name());
    push_str(out, "\n");
    proof {
        assert(out@ =~= start + node_line(j as nat, *d));
    }
}

fn push_subgraph(out: &mut String, i: usize, row: &SourceRow, nodes: &Vec<DrawnNode>)
    ensures
        final(out)@ == old(out)@ + subgraph_text(i as nat, *row, nodes@),
{
    let ghost start = out@;
    let mut head = owned("  subgraph s");
    push_usize(&mut head, i);
    push_str(&mut head, "[\"");
    let name = escape(row.source.as_str());
    push_str(&mut head, name.as_str());
    push_str(&mut head, "\"]\n");
    let mut m = String::new();
    let mut drawn: usize = 0;
    let mut j: usize = 0;
    while j < nodes.len()
        invariant
            j <= nodes@.len(),
            m@ == members_text(nodes@, row.source@, j as int),
            drawn == members(nodes@, row.source@, j as int),
            drawn <= j,
        decreases nodes@.len() - j,
    {
        if str_eq(nodes[j].key.source.as_str(), row.source.as_str()) {
            push_node_line(&mut m, j, &nodes[j]);
            drawn = drawn + 1;
        }
        j = j + 1;
    }
    let mut note = String::new();
    if drawn == 0 {
        push_str(&mut note, "    s");
        push_usize(&mut note, i);
        push_str(&mut note, "note[\"");
        let why = if row.zero {
            escape(BLIND_SOURCE)
        } else {
            escape(EMPTY_VIEW)
        };
        push_str(&mut note, why.as_str());
        push_str(&mut note, "\"]:::note\n");
    }
    push_str(out, head.as_str());
    push_str(out, m.as_str());
    push_str(out, note.as_str());
    push_str(out, "  end\n");
    proof {
        assert(out@ =~= start + subgraph_text(i as nat, *row, nodes@));
    }
}

/// Where node `k` stands among `nodes`: the first position that holds it.
fn position_of(nodes: &Vec<DrawnNode>, k: &super::model::NodeKey) -> (r: Option<usize>)
    ensures
        match r {
            Some(p) => p as int == position(nodes@, nv(*k), nodes@.len() as int),
            None => position(nodes@, nv(*k), nodes@.len() as int) == -1,
        },
{
    let mut j: usize = 0;
    while j < nodes.len()
        invariant
            j <= nodes@.len(),
            position(nodes@, nv(*k), j as int) == -1,
        decreases nodes@.len() - j,
    {
        if super::model::node_order(&nodes[j].key, k) == crate::text::Cmp::Equal {
            proof {
                lemma_position_found(nodes@, nv(*k), j as int + 1, nodes@.len() as int);
            }
            return Some(j);
        }
        j = j + 1;
    }
    None
}

proof fn lemma_position_found(nodes: Seq<DrawnNode>, k: NodeV, j: int, n: int)
    requires
        0 <= j <= n <= nodes.len(),
        position(nodes, k, j) >= 0,
    ensures
        position(nodes, k, n) == position(nodes, k, j),
    decreases n - j,
{
    if n > j {
        lemma_position_found(nodes, k, j, n - 1);
    }
}

fn push_connector(out: &mut String, dotted: bool, label: &Option<String>)
    ensures
        final(out)@ == old(out)@ + connector(dotted, ov(*label)),
{
    let ghost start = out@;
    match label {
        None => if dotted {
            push_str(out, " -.-> ");
        } else {
            push_str(out, " --> ");
        },
        Some(l) => {
            let text = escape(l.as_str());
            if dotted {
                push_str(out, " -. \"");
                push_str(out, text.as_str());
                push_str(out, "\" .-> ");
            } else {
                push_str(out, " -- \"");
                push_str(out, text.as_str());
                push_str(out, "\" --> ");
            }
        },
    }
    proof {
        assert(out@ =~= start + connector(dotted, ov(*label)));
    }
}

fn push_arrows(out: &mut String, nodes: &Vec<DrawnNode>, arrows: &Vec<GraphEdge>)
    ensures
        final(out)@ == old(out)@ + arrows_text(nodes@, arrows@, arrows@.len() as int),
{
    let ghost start = out@;
    let mut q: usize = 0;
    while q < arrows.len()
        invariant
            q <= arrows@.len(),
            out@ == start + arrows_text(nodes@, arrows@, q as int),
        decreases arrows@.len() - q,
    {
        let e = &arrows[q];
        let ghost before = out@;
        match (position_of(nodes, &e.from), position_of(nodes, &e.to)) {
            (Some(a), Some(b)) => {
                push_str(out, "  n");
                push_usize(out, a);
                push_connector(out, e.dotted, &e.label);
                push_str(out, "n");
                push_usize(out, b);
                push_str(out, "\n");
            },
            _ => {},
        }
        proof {
            assert(out@ =~= before + arrow_line(nodes@, *e));
            assert(out@ =~= start + arrows_text(nodes@, arrows@, q + 1));
        }
        q = q + 1;
    }
}

proof fn lemma_hidden_bound(counts: Seq<BucketCount>, n: int)
    requires
        0 <= n <= counts.len(),
        counts_ok(counts),
    ensures
        0 <= hidden(counts, n) <= n * (usize::MAX as int),
    decreases n,
{
    if n > 0 {
        lemma_hidden_bound(counts, n - 1);
        assert(counts[n - 1].in_scope <= counts[n - 1].total);
    }
}

proof fn lemma_comma_push(items: Seq<Seq<char>>, x: Seq<char>)
    ensures
        comma_joined(items.push(x)) == if items.len() == 0 {
            x
        } else {
            comma_joined(items) + ", "@ + x
        },
{
    assert(items.push(x).drop_last() =~= items);
}

/// The visible notes.
fn disclosure_notes(counts: &Vec<BucketCount>, scope: Option<&str>, top: usize) -> (r: Vec<String>)
    requires
        counts_ok(counts@),
    ensures
        r@.len() == notes(counts@, scope, top).len(),
        forall|i: int| 0 <= i < r@.len() ==> (#[trigger] r@[i])@ == notes(counts@, scope, top)[i],
{
    let mut list = String::new();
    let mut any = false;
    let mut hid: u128 = 0;
    let mut i: usize = 0;
    while i < counts.len()
        invariant
            i <= counts@.len(),
            counts_ok(counts@),
            any == (truncated(counts@, i as int).len() > 0),
            list@ == comma_joined(truncated(counts@, i as int)),
            hid as int == hidden(counts@, i as int),
        decreases counts@.len() - i,
    {
        let c = &counts[i];
        proof {
            lemma_hidden_bound(counts@, i as int + 1);
            assert((i as int + 1) * (usize::MAX as int) < 0x1_0000_0000_0000_0000_0000_0000_0000_0000) by (nonlinear_arith)
                requires
                    i < usize::MAX,
                    usize::MAX < 0x1_0000_0000_0000_0000,
            ;
            assert(c.in_scope <= c.total);
        }
        hid = hid + (c.total - c.in_scope) as u128;
        if c.in_scope > c.shown {
            let ghost t0 = truncated(counts@, i as int);
            let mut item = owned(c.bucket);
            push_str(&mut item, " ");
            push_usize(&mut item, c.shown);
            push_str(&mut item, "/");
            push_usize(&mut item, c.in_scope);
            if any {
                push_str(&mut list, ", ");
            }
            push_str(&mut list, item.as_str());
            any = true;
            proof {
                lemma_comma_push(t0, item@);
                assert(truncated(counts@, i + 1) == t0.push(item@));
            }
        }
        i = i + 1;
    }
    let mut out: Vec<String> = Vec::new();
    if any {
        let mut note = owned("TRUNCATED — ");
        push_str(&mut note, list.as_str());
        push_str(&mut note, " (drawn/inScope relations). Raise --top (now ");
        push_usize(&mut note, top);
        push_str(&mut note, ") or narrow --scope; `zzop facts` is uncapped.");
        out.push(note);
    }
    match scope {
        Some(p) => {
            let mut note = owned("SCOPED to '");
            push_str(&mut note, p);
            push_str(&mut note, "' — ");
            push_dec_wide(&mut note, hid);
            push_str(&mut note, " relation(s) outside the scope are not drawn.");
            out.push(note);
        },
        None => {},
    }
    proof {
        let ns = notes(counts@, scope, top);
        assert(out@.len() == ns.len());
        assert forall|k: int| 0 <= k < out@.len() implies (#[trigger] out@[k])@ == ns[k] by {}
    }
    out
}

fn push_notes(out: &mut String, ns: &Vec<String>, Ghost(spec): Ghost<Seq<Seq<char>>>)
    requires
        ns@.len() == spec.len(),
        forall|i: int| 0 <= i < ns@.len() ==> (#[trigger] ns@[i])@ == spec[i],
    ensures
        final(out)@ == old(out)@ + notes_text(spec, spec.len() as int),
{
    let ghost start = out@;
    let mut i: usize = 0;
    while i < ns.len()
        invariant
            i <= ns@.len(),
            ns@.len() == spec.len(),
            forall|k: int| 0 <= k < ns@.len() ==> (#[trigger] ns@[k])@ == spec[k],
            out@ == start + notes_text(spec, i as int),
        decreases ns@.len() - i,
    {
        push_str(out, "  disclosure");
        push_usize(out, i);
        push_str(out, "[\"");
        let text = escape(ns[i].as_str());
        push_str(out, text.as_str());
        push_str(out, "\"]:::note\n");
        proof {
            assert(ns@[i as int]@ == spec[i as int]);
            assert(out@ =~= start + notes_text(spec, i + 1));
        }
        i = i + 1;
    }
}

/// The join picture as mermaid text.
pub fn render(g: &JoinGraph, scope: Option<&str>, top: usize, tool: &str) -> (r: String)
    requires
        counts_ok(g.counts@),
    ensures
        r@ == document(*g, scope, top, tool@),
{
    let mut out = owned("flowchart LR\n");
    push_header(&mut out, &g.counts, scope, top, tool);
    let ghost after_header = out@;
    let mut i: usize = 0;
    while i < g.sources.len()
        invariant
            i <= g.sources@.len(),
            out@ == after_header + subgraphs_text(g.sources@, g.nodes@, i as int),
        decreases g.sources@.len() - i,
    {
        push_subgraph(&mut out, i, &g.sources[i], &g.nodes);
        proof {
            assert(out@ =~= after_header + subgraphs_text(g.sources@, g.nodes@, i + 1));
        }
        i = i + 1;
    }
    push_arrows(&mut out, &g.nodes, &g.arrows);
    let ns = disclosure_notes(&g.counts, scope, top);
    push_notes(&mut out, &ns, Ghost(notes(g.counts@, scope, top)));
    push_str(&mut out, CLASS_DEFS);
    proof {
        assert(out@ =~= document(*g, scope, top, tool@));
    }
    out
}

} // verus!
