//! The dependency picture: the files (or boxes) ranked by degree, the first `--top` of them drawn
//! with the links between drawn ones, cycle members as hexagons with thick arrows, and every drop
//! disclosed in a `%%` header and in visible note nodes.
use vstd::prelude::*;

use super::folded::{collapse, collapse_of, Collapsed};
use super::universe::{collect, ervs, universe_of, DepUniverse};
use super::view::{bv, bvs, lv, lvs, scope_files, scoped_files, unit_links, Link, LinkV, Node, NodeV};
use super::DepTree;
use crate::graph::distinct::{texts, Text};
use crate::graph::fold::{census, census_text, Fold};
use crate::graph::label::{push_swapped, swap_quotes};
use crate::text::{dec, lex_lt, order_str, owned, push_dec, push_dec_wide, push_str, push_usize, str_eq, Cmp};

verus! {

broadcast use vstd::seq_lib::group_seq_properties;

/// How many links of `ls` start or end at `id` (a link from `id` to itself counts twice).
pub open spec fn degree(ls: Seq<LinkV>, id: Seq<char>) -> nat
    decreases ls.len(),
{
    if ls.len() == 0 {
        0
    } else {
        degree(ls.drop_last(), id) + (if ls.last().0 == id {
            1nat
        } else {
            0nat
        }) + (if ls.last().1 == id {
            1nat
        } else {
            0nat
        })
    }
}

/// `y` ranks before `x`: higher degree, or the same degree and an earlier id.
pub open spec fn ranks_before(ls: Seq<LinkV>, y: Seq<char>, x: Seq<char>) -> bool {
    degree(ls, y) > degree(ls, x) || (degree(ls, y) == degree(ls, x) && lex_lt(y, x))
}

/// How many of the nodes `ns` rank before `x`.
pub open spec fn ahead(ns: Seq<NodeV>, ls: Seq<LinkV>, x: Seq<char>) -> nat
    decreases ns.len(),
{
    if ns.len() == 0 {
        0
    } else {
        ahead(ns.drop_last(), ls, x) + if ranks_before(ls, ns.last().0, x) {
            1nat
        } else {
            0nat
        }
    }
}

/// Node `x` is among the `top` best ranked.
pub open spec fn kept(ns: Seq<NodeV>, ls: Seq<LinkV>, top: usize, x: Seq<char>) -> bool {
    ahead(ns, ls, x) < top
}

/// The nodes drawn, in id order.
pub open spec fn drawn_nodes(ns: Seq<NodeV>, ls: Seq<LinkV>, top: usize, k: int) -> Seq<NodeV>
    decreases k,
{
    if k <= 0 {
        Seq::empty()
    } else {
        let r = drawn_nodes(ns, ls, top, k - 1);
        if kept(ns, ls, top, ns[k - 1].0) {
            r.push(ns[k - 1])
        } else {
            r
        }
    }
}

/// The links drawn: both ends drawn, in order.
pub open spec fn drawn_links(ns: Seq<NodeV>, ls: Seq<LinkV>, top: usize, k: int) -> Seq<LinkV>
    decreases k,
{
    if k <= 0 {
        Seq::empty()
    } else {
        let r = drawn_links(ns, ls, top, k - 1);
        if kept(ns, ls, top, ls[k - 1].0) && kept(ns, ls, top, ls[k - 1].1) && node_listed(ns, ls[k - 1].0) && node_listed(
            ns,
            ls[k - 1].1,
        ) {
            r.push(ls[k - 1])
        } else {
            r
        }
    }
}

/// Some node of `ns` has id `id`.
pub open spec fn node_listed(ns: Seq<NodeV>, id: Seq<char>) -> bool {
    exists|i: int| 0 <= i < ns.len() && (#[trigger] ns[i]).0 == id
}

/// The position of the first of the first `j` nodes with id `id`, or -1.
pub open spec fn pos(ns: Seq<NodeV>, id: Seq<char>, j: int) -> int
    decreases j,
{
    if j <= 0 {
        -1
    } else {
        let r = pos(ns, id, j - 1);
        if r >= 0 {
            r
        } else if ns[j - 1].0 == id {
            j - 1
        } else {
            -1
        }
    }
}

/// The statement for drawn node `i`: a hexagon for a cycle member, else a box.
pub open spec fn node_line(i: nat, n: NodeV, cyc: Seq<Seq<char>>) -> Seq<char> {
    if cyc.contains(n.0) {
        "  f"@ + dec(i) + "{{\""@ + swap_quotes(n.2) + "\"}}\n"@
    } else {
        "  f"@ + dec(i) + "[\""@ + swap_quotes(n.2) + "\"]\n"@
    }
}

/// The statements for the first `k` drawn nodes.
pub open spec fn node_lines(ds: Seq<NodeV>, cyc: Seq<Seq<char>>, k: int) -> Seq<char>
    decreases k,
{
    if k <= 0 {
        Seq::empty()
    } else {
        node_lines(ds, cyc, k - 1) + node_line((k - 1) as nat, ds[k - 1], cyc)
    }
}

/// The statement for one drawn link: thick between two cycle members, labelled with its weight
/// when folded.
pub open spec fn link_line(ds: Seq<NodeV>, l: LinkV, cyc: Seq<Seq<char>>, fold: Fold) -> Seq<char> {
    let a = pos(ds, l.0, ds.len() as int);
    let b = pos(ds, l.1, ds.len() as int);
    if a >= 0 && b >= 0 {
        "  f"@ + dec(a as nat) + " "@ + (if cyc.contains(l.0) && cyc.contains(l.1) {
            "==>"@
        } else {
            "-->"@
        }) + " "@ + (if fold.0 is Some {
            "|"@ + dec(l.2 as nat) + "| "@
        } else {
            Seq::empty()
        }) + "f"@ + dec(b as nat) + "\n"@
    } else {
        Seq::empty()
    }
}

/// The statements for the first `k` drawn links.
pub open spec fn link_lines(ds: Seq<NodeV>, dl: Seq<LinkV>, cyc: Seq<Seq<char>>, fold: Fold, k: int) -> Seq<char>
    decreases k,
{
    if k <= 0 {
        Seq::empty()
    } else {
        link_lines(ds, dl, cyc, fold, k - 1) + link_line(ds, dl[k - 1], cyc, fold)
    }
}

/// `a - b`, or zero.
pub open spec fn minus(a: nat, b: nat) -> nat {
    if a >= b {
        (a - b) as nat
    } else {
        0
    }
}

/// The document's fixed lead line.
pub const DEP_LEAD: &'static str = "%% zzop graph --domain dep — file import graph\n";

/// What a hexagon means under a fold.
pub const FOLDED_HEXAGON: &'static str = "a hexagon means the box CONTAINS a file in some cycle, not that the boxes form one — a fold cannot tell those apart and does not pretend to";

/// What a hexagon means at file level.
pub const FILE_HEXAGON: &'static str = "files in a cycle are drawn as hexagons with thick arrows";

/// The text after the numbers of a partial view.
pub const PARTIAL_TAIL: &'static str = " edges. An edge whose other end was dropped is not drawn. Use zzop facts for the uncapped graph.";

/// The dependency picture of a view: its nodes and links, the cycle members among them, the
/// census totals, and the fold census and erased-import sentence the header and notes carry.
pub open spec fn dep_document(
    scope: Option<&str>,
    top: usize,
    fold: Fold,
    ns: Seq<NodeV>,
    ls: Seq<LinkV>,
    cyc: Seq<Seq<char>>,
    total_nodes: nat,
    total_edges: nat,
    cycles: nat,
    mutual: nat,
    fold_note: Seq<char>,
    erased: Seq<char>,
) -> Seq<char> {
    let ds = drawn_nodes(ns, ls, top, ns.len() as int);
    let dl = drawn_links(ns, ls, top, ls.len() as int);
    let dropped_nodes = minus(ns.len(), ds.len());
    let dropped_edges = minus(total_edges, dl.len());
    let unit = if fold.0 is Some { "boxes"@ } else { "files"@ };
    let note = if dropped_nodes == 0 && dropped_edges == 0 && scope is None {
        "complete: all "@ + dec(total_nodes) + " "@ + unit + " and "@ + dec(total_edges) + " import edges drawn"@
    } else {
        "PARTIAL VIEW: "@ + dec(ds.len()) + " of "@ + dec(ns.len()) + " "@ + unit + " drawn ("@ + dec(dropped_nodes)
            + " dropped by --top "@ + dec(top as nat) + "), "@ + dec(dl.len()) + " of "@ + dec(total_edges) + PARTIAL_TAIL@
    };
    DEP_LEAD@ + "%% nodes: drawn "@ + dec(ds.len()) + " / in-scope "@ + dec(ns.len()) + " / total "@ + dec(total_nodes)
        + " | edges: drawn "@ + dec(dl.len()) + " / total "@ + dec(total_edges) + " | cycles reported: "@ + dec(cycles)
        + "\n"@ + "%% node cap --top "@ + dec(top as nat) + (match scope {
        Some(p) => " | --scope "@ + p@,
        None => Seq::empty(),
    }) + "\n"@ + fold_note + "flowchart LR\n"@ + node_lines(ds, cyc, ds.len() as int) + link_lines(
        ds,
        dl,
        cyc,
        fold,
        dl.len() as int,
    ) + "  zzopNote[\""@ + note + "\"]\n"@ + (if cycles > 0 {
        "  zzopCycles[\""@ + dec(cycles) + " circular finding(s) — "@ + (if fold.0 is Some {
            FOLDED_HEXAGON@
        } else {
            FILE_HEXAGON@
        }) + "\"]\n"@
    } else {
        Seq::empty()
    }) + (if mutual > 0 {
        "  zzopMutual[\""@ + dec(mutual) + " file pair(s) import EACH OTHER but are in no reported cycle — "@ + erased
            + "\"]\n"@
    } else {
        Seq::empty()
    })
}

fn degree_of(ls: &Vec<Link>, id: &str) -> (r: u128)
    ensures
        r as nat == degree(lvs(ls@), id@),
{
    let ghost lv0 = lvs(ls@);
    let mut d: u128 = 0;
    let mut i: usize = 0;
    while i < ls.len()
        invariant
            i <= ls@.len(),
            lv0 == lvs(ls@),
            d as nat == degree(lv0.take(i as int), id@),
            d <= 2 * i,
        decreases ls@.len() - i,
    {
        proof {
            assert(lv0.take(i + 1).drop_last() =~= lv0.take(i as int));
            assert(lv0.take(i + 1).last() == lv(ls@[i as int]));
        }
        if str_eq(ls[i].from.as_str(), id) {
            d = d + 1;
        }
        if str_eq(ls[i].to.as_str(), id) {
            d = d + 1;
        }
        i = i + 1;
    }
    proof {
        assert(lv0.take(ls@.len() as int) =~= lv0);
    }
    d
}

/// Which nodes are among the `top` best ranked.
fn kept_flags(ns: &Vec<Node>, ls: &Vec<Link>, top: usize) -> (r: Vec<bool>)
    ensures
        r@.len() == ns@.len(),
        forall|i: int| 0 <= i < ns@.len() ==> r@[i] == kept(bvs(ns@), lvs(ls@), top, #[trigger] ns@[i].id@),
{
    let ghost nv = bvs(ns@);
    let ghost lv0 = lvs(ls@);
    let mut degs: Vec<u128> = Vec::new();
    let mut i: usize = 0;
    while i < ns.len()
        invariant
            i <= ns@.len(),
            lv0 == lvs(ls@),
            degs@.len() == i,
            forall|k: int| 0 <= k < i ==> degs@[k] as nat == degree(lv0, #[trigger] ns@[k].id@),
        decreases ns@.len() - i,
    {
        let d = degree_of(ls, ns[i].id.as_str());
        degs.push(d);
        i = i + 1;
    }
    let mut flags: Vec<bool> = Vec::new();
    let mut x: usize = 0;
    while x < ns.len()
        invariant
            x <= ns@.len(),
            nv == bvs(ns@),
            lv0 == lvs(ls@),
            degs@.len() == ns@.len(),
            forall|k: int| 0 <= k < ns@.len() ==> degs@[k] as nat == degree(lv0, #[trigger] ns@[k].id@),
            flags@.len() == x,
            forall|k: int| 0 <= k < x ==> flags@[k] == kept(nv, lv0, top, #[trigger] ns@[k].id@),
        decreases ns@.len() - x,
    {
        let me = &ns[x];
        let dx = degs[x];
        let mut n: usize = 0;
        let mut y: usize = 0;
        while y < ns.len()
            invariant
                y <= ns@.len(),
                nv == bvs(ns@),
                lv0 == lvs(ls@),
                degs@.len() == ns@.len(),
                forall|k: int| 0 <= k < ns@.len() ==> degs@[k] as nat == degree(lv0, #[trigger] ns@[k].id@),
                x < ns@.len(),
                *me == ns@[x as int],
                dx as nat == degree(lv0, me.id@),
                n == ahead(nv.take(y as int), lv0, me.id@),
                n <= y,
            decreases ns@.len() - y,
        {
            let other = &ns[y];
            let dy = degs[y];
            proof {
                assert(nv.take(y + 1).drop_last() =~= nv.take(y as int));
                assert(nv.take(y + 1).last() == bv(*other));
                assert(dy as nat == degree(lv0, other.id@));
            }
            if dy > dx || (dy == dx && order_str(other.id.as_str(), me.id.as_str()) == Cmp::Less) {
                n = n + 1;
            }
            y = y + 1;
        }
        proof {
            assert(nv.take(ns@.len() as int) =~= nv);
        }
        flags.push(n < top);
        x = x + 1;
    }
    flags
}

proof fn lemma_listed(ns: Seq<Node>, i: int)
    requires
        0 <= i < ns.len(),
    ensures
        node_listed(bvs(ns), ns[i].id@),
{
    assert(bvs(ns)[i] == bv(ns[i]));
}

proof fn lemma_not_listed(ns: Seq<Node>, id: Seq<char>)
    requires
        forall|i: int| 0 <= i < ns.len() ==> (#[trigger] ns[i]).id@ != id,
    ensures
        !node_listed(bvs(ns), id),
{
    if node_listed(bvs(ns), id) {
        let i = choose|i: int| 0 <= i < bvs(ns).len() && (#[trigger] bvs(ns)[i]).0 == id;
        assert(bvs(ns)[i] == bv(ns[i]));
    }
}

/// Whether `id` is a node, and if so whether it is kept.
fn kept_id(ns: &Vec<Node>, flags: &Vec<bool>, id: &str, Ghost(ls): Ghost<Seq<LinkV>>, top: usize) -> (r: bool)
    requires
        flags@.len() == ns@.len(),
        forall|i: int| 0 <= i < ns@.len() ==> flags@[i] == kept(bvs(ns@), ls, top, #[trigger] ns@[i].id@),
    ensures
        r == (node_listed(bvs(ns@), id@) && kept(bvs(ns@), ls, top, id@)),
{
    let mut i: usize = 0;
    while i < ns.len()
        invariant
            i <= ns@.len(),
            flags@.len() == ns@.len(),
            forall|k: int| 0 <= k < ns@.len() ==> flags@[k] == kept(bvs(ns@), ls, top, #[trigger] ns@[k].id@),
            forall|k: int| 0 <= k < i ==> (#[trigger] ns@[k]).id@ != id@,
        decreases ns@.len() - i,
    {
        if str_eq(ns[i].id.as_str(), id) {
            proof {
                lemma_listed(ns@, i as int);
            }
            return flags[i];
        }
        i = i + 1;
    }
    proof {
        lemma_not_listed(ns@, id@);
    }
    false
}

fn position_of(ds: &Vec<Node>, id: &str) -> (r: Option<usize>)
    ensures
        match r {
            Some(p) => p as int == pos(bvs(ds@), id@, ds@.len() as int),
            None => pos(bvs(ds@), id@, ds@.len() as int) == -1,
        },
{
    let ghost dv = bvs(ds@);
    let mut j: usize = 0;
    while j < ds.len()
        invariant
            j <= ds@.len(),
            dv == bvs(ds@),
            pos(dv, id@, j as int) == -1,
        decreases ds@.len() - j,
    {
        proof {
            assert(dv[j as int] == bv(ds@[j as int]));
        }
        if str_eq(ds[j].id.as_str(), id) {
            proof {
                lemma_pos_found(dv, id@, j as int + 1, ds@.len() as int);
            }
            return Some(j);
        }
        j = j + 1;
    }
    None
}

proof fn lemma_pos_found(ns: Seq<NodeV>, id: Seq<char>, j: int, n: int)
    requires
        0 <= j <= n <= ns.len(),
        pos(ns, id, j) >= 0,
    ensures
        pos(ns, id, n) == pos(ns, id, j),
    decreases n - j,
{
    if n > j {
        lemma_pos_found(ns, id, j, n - 1);
    }
}

fn in_cycle(cyc: &Vec<Text>, id: &str) -> (r: bool)
    ensures
        r == texts(cyc@).contains(id@),
{
    let ghost cv = texts(cyc@);
    let mut found = false;
    let mut i: usize = 0;
    while i < cyc.len()
        invariant
            i <= cyc@.len(),
            cv == texts(cyc@),
            found == cv.take(i as int).contains(id@),
        decreases cyc@.len() - i,
    {
        proof {
            assert(cv.take(i + 1) =~= cv.take(i as int).push(cyc@[i as int].text@));
        }
        if str_eq(cyc[i].text.as_str(), id) {
            found = true;
        }
        i = i + 1;
    }
    proof {
        assert(cv.take(cyc@.len() as int) =~= cv);
    }
    found
}

/// The dependency picture of a view.
fn render(
    scope: Option<&str>,
    top: usize,
    fold: Fold,
    ns: &Vec<Node>,
    ls: &Vec<Link>,
    cyc: &Vec<Text>,
    total_nodes: usize,
    total_edges: usize,
    cycles: u128,
    mutual: usize,
    fold_note: &str,
    erased: &str,
) -> (r: String)
    ensures
        r@ == dep_document(
            scope,
            top,
            fold,
            bvs(ns@),
            lvs(ls@),
            texts(cyc@),
            total_nodes as nat,
            total_edges as nat,
            cycles as nat,
            mutual as nat,
            fold_note@,
            erased@,
        ),
{
    let ghost nv = bvs(ns@);
    let ghost lv0 = lvs(ls@);
    let ghost cv = texts(cyc@);
    let flags = kept_flags(ns, ls, top);
    let mut ds: Vec<Node> = Vec::new();
    let mut i: usize = 0;
    while i < ns.len()
        invariant
            i <= ns@.len(),
            nv == bvs(ns@),
            lv0 == lvs(ls@),
            flags@.len() == ns@.len(),
            forall|k: int| 0 <= k < ns@.len() ==> flags@[k] == kept(nv, lv0, top, #[trigger] ns@[k].id@),
            bvs(ds@) == drawn_nodes(nv, lv0, top, i as int),
        decreases ns@.len() - i,
    {
        proof {
            assert(nv[i as int] == bv(ns@[i as int]));
        }
        if flags[i] {
            let ghost before = ds@;
            let n = Node { id: owned(ns[i].id.as_str()), source: owned(ns[i].source.as_str()), rel: owned(ns[i].rel.as_str()) };
            let ghost v = bv(n);
            ds.push(n);
            proof {
                assert(bvs(ds@) =~= bvs(before).push(v));
            }
        }
        i = i + 1;
    }
    let mut dl: Vec<Link> = Vec::new();
    let mut k: usize = 0;
    while k < ls.len()
        invariant
            k <= ls@.len(),
            nv == bvs(ns@),
            lv0 == lvs(ls@),
            flags@.len() == ns@.len(),
            forall|q: int| 0 <= q < ns@.len() ==> flags@[q] == kept(nv, lv0, top, #[trigger] ns@[q].id@),
            lvs(dl@) == drawn_links(nv, lv0, top, k as int),
        decreases ls@.len() - k,
    {
        let l = &ls[k];
        proof {
            assert(lv0[k as int] == lv(*l));
        }
        let ka = kept_id(ns, &flags, l.from.as_str(), Ghost(lv0), top);
        let kb = kept_id(ns, &flags, l.to.as_str(), Ghost(lv0), top);
        if ka && kb {
            let ghost before = dl@;
            let c = Link { from: owned(l.from.as_str()), to: owned(l.to.as_str()), weight: l.weight };
            let ghost v = lv(c);
            dl.push(c);
            proof {
                assert(lvs(dl@) =~= lvs(before).push(v));
            }
        }
        k = k + 1;
    }
    let ghost dsv = bvs(ds@);
    let ghost dlv = lvs(dl@);
    proof {
        assert(dsv.len() == ds@.len());
        assert(dlv.len() == dl@.len());
    }
    let mut out = owned(DEP_LEAD);
    push_str(&mut out, "%% nodes: drawn ");
    push_usize(&mut out, ds.len());
    push_str(&mut out, " / in-scope ");
    push_usize(&mut out, ns.len());
    push_str(&mut out, " / total ");
    push_usize(&mut out, total_nodes);
    push_str(&mut out, " | edges: drawn ");
    push_usize(&mut out, dl.len());
    push_str(&mut out, " / total ");
    push_usize(&mut out, total_edges);
    push_str(&mut out, " | cycles reported: ");
    push_dec_wide(&mut out, cycles);
    push_str(&mut out, "\n");
    push_str(&mut out, "%% node cap --top ");
    push_usize(&mut out, top);
    let mut sfx = String::new();
    match scope {
        Some(p) => {
            push_str(&mut sfx, " | --scope ");
            push_str(&mut sfx, p);
        },
        None => {},
    }
    push_str(&mut out, sfx.as_str());
    push_str(&mut out, "\n");
    push_str(&mut out, fold_note);
    push_str(&mut out, "flowchart LR\n");
    let ghost lead = out@;
    let mut q: usize = 0;
    while q < ds.len()
        invariant
            q <= ds@.len(),
            dsv == bvs(ds@),
            cv == texts(cyc@),
            out@ == lead + node_lines(dsv, cv, q as int),
        decreases ds@.len() - q,
    {
        let n = &ds[q];
        proof {
            assert(dsv[q as int] == bv(*n));
        }
        let mut line = owned("  f");
        push_usize(&mut line, q);
        if in_cycle(cyc, n.id.as_str()) {
            push_str(&mut line, "{{\"");
            push_swapped(&mut line, n.rel.as_str());
            push_str(&mut line, "\"}}\n");
        } else {
            push_str(&mut line, "[\"");
            push_swapped(&mut line, n.rel.as_str());
            push_str(&mut line, "\"]\n");
        }
        push_str(&mut out, line.as_str());
        proof {
            assert(out@ =~= lead + node_lines(dsv, cv, q + 1));
        }
        q = q + 1;
    }
    let ghost mid = out@;
    let mut e: usize = 0;
    while e < dl.len()
        invariant
            e <= dl@.len(),
            dsv == bvs(ds@),
            dlv == lvs(dl@),
            cv == texts(cyc@),
            out@ == mid + link_lines(dsv, dlv, cv, fold, e as int),
        decreases dl@.len() - e,
    {
        let l = &dl[e];
        proof {
            assert(dlv[e as int] == lv(*l));
        }
        let mut line = String::new();
        match (position_of(&ds, l.from.as_str()), position_of(&ds, l.to.as_str())) {
            (Some(a), Some(b)) => {
                push_str(&mut line, "  f");
                push_usize(&mut line, a);
                push_str(&mut line, " ");
                if in_cycle(cyc, l.from.as_str()) && in_cycle(cyc, l.to.as_str()) {
                    push_str(&mut line, "==>");
                } else {
                    push_str(&mut line, "-->");
                }
                push_str(&mut line, " ");
                let mut wl = String::new();
                if fold.is_on() {
                    push_str(&mut wl, "|");
                    push_dec(&mut wl, l.weight);
                    push_str(&mut wl, "| ");
                }
                push_str(&mut line, wl.as_str());
                push_str(&mut line, "f");
                push_usize(&mut line, b);
                push_str(&mut line, "\n");
            },
            _ => {},
        }
        push_str(&mut out, line.as_str());
        proof {
            assert(line@ =~= link_line(dsv, dlv[e as int], cv, fold));
            assert(out@ =~= mid + link_lines(dsv, dlv, cv, fold, e + 1));
        }
        e = e + 1;
    }
    let dropped_nodes = if ns.len() >= ds.len() {
        ns.len() - ds.len()
    } else {
        0
    };
    let dropped_edges = if total_edges >= dl.len() {
        total_edges - dl.len()
    } else {
        0
    };
    let mut note = String::new();
    if dropped_nodes == 0 && dropped_edges == 0 && scope.is_none() {
        push_str(&mut note, "complete: all ");
        push_usize(&mut note, total_nodes);
        push_str(&mut note, " ");
        if fold.is_on() {
            push_str(&mut note, "boxes");
        } else {
            push_str(&mut note, "files");
        }
        push_str(&mut note, " and ");
        push_usize(&mut note, total_edges);
        push_str(&mut note, " import edges drawn");
    } else {
        push_str(&mut note, "PARTIAL VIEW: ");
        push_usize(&mut note, ds.len());
        push_str(&mut note, " of ");
        push_usize(&mut note, ns.len());
        push_str(&mut note, " ");
        if fold.is_on() {
            push_str(&mut note, "boxes");
        } else {
            push_str(&mut note, "files");
        }
        push_str(&mut note, " drawn (");
        push_usize(&mut note, dropped_nodes);
        push_str(&mut note, " dropped by --top ");
        push_usize(&mut note, top);
        push_str(&mut note, "), ");
        push_usize(&mut note, dl.len());
        push_str(&mut note, " of ");
        push_usize(&mut note, total_edges);
        push_str(&mut note, PARTIAL_TAIL);
    }
    push_str(&mut out, "  zzopNote[\"");
    push_str(&mut out, note.as_str());
    push_str(&mut out, "\"]\n");
    let mut cy = String::new();
    if cycles > 0 {
        push_str(&mut cy, "  zzopCycles[\"");
        push_dec_wide(&mut cy, cycles);
        push_str(&mut cy, " circular finding(s) — ");
        if fold.is_on() {
            push_str(&mut cy, FOLDED_HEXAGON);
        } else {
            push_str(&mut cy, FILE_HEXAGON);
        }
        push_str(&mut cy, "\"]\n");
    }
    push_str(&mut out, cy.as_str());
    let mut mu = String::new();
    if mutual > 0 {
        push_str(&mut mu, "  zzopMutual[\"");
        push_usize(&mut mu, mutual);
        push_str(&mut mu, " file pair(s) import EACH OTHER but are in no reported cycle — ");
        push_str(&mut mu, erased);
        push_str(&mut mu, "\"]\n");
    }
    push_str(&mut out, mu.as_str());
    proof {
        assert(out@ =~= dep_document(scope, top, fold, nv, lv0, cv, total_nodes as nat, total_edges as nat, cycles as nat, mutual as nat, fold_note@, erased@));
    }
    out
}

/// `text` is the dependency picture of universe `u`.
pub open spec fn dep_picture(u: DepUniverse, scope: Option<&str>, top: usize, fold: Fold, erased: Seq<char>, text: Seq<char>) -> bool {
    let files = scoped_files(u.nodes@, scope);
    let es = ervs(u.edges@);
    let cyc = texts(u.cycle_files@);
    if fold.0 is None {
        text == dep_document(
            scope,
            top,
            fold,
            files,
            es.map_values(|e: (Seq<char>, Seq<char>)| (e.0, e.1, 1u64)),
            cyc,
            u.nodes@.len(),
            u.edges@.len(),
            u.cycles as nat,
            u.mutual_outside_cycles as nat,
            Seq::empty(),
            erased,
        )
    } else {
        exists|c: Collapsed|
            collapse_of(fold, files, es, cyc, c) && text == #[trigger] dep_document(
                scope,
                top,
                fold,
                bvs(c.nodes@),
                lvs(c.links@),
                texts(c.in_cycle@),
                c.nodes@.len(),
                c.links@.len(),
                u.cycles as nat,
                u.mutual_outside_cycles as nat,
                census_text(fold, files.len(), c.nodes@.len(), c.unfoldable as nat, c.file_edges as nat, c.links@.len()),
                erased,
            )
    }
}

/// The picture of an already collected universe.
pub fn draw(u: &DepUniverse, scope: Option<&str>, top: usize, fold: Fold, erased: &str) -> (r: String)
    requires
        fold.valid(),
    ensures
        dep_picture(*u, scope, top, fold, erased@, r@),
{
    let files = scope_files(u, scope);
    if fold.is_on() {
        let c = collapse(fold, &files, &u.edges, &u.cycle_files);
        let note = census(fold, files.len(), c.nodes.len(), c.unfoldable, c.file_edges, c.links.len());
        proof {
            assert(bvs(files@).len() == files@.len());
        }
        let out = render(scope, top, fold, &c.nodes, &c.links, &c.in_cycle, c.nodes.len(), c.links.len(), u.cycles, u.mutual_outside_cycles, note.as_str(), erased);
        proof {
            let fs = scoped_files(u.nodes@, scope);
            assert(collapse_of(fold, fs, ervs(u.edges@), texts(u.cycle_files@), c));
            assert(note@ == census_text(fold, fs.len(), c.nodes@.len(), c.unfoldable as nat, c.file_edges as nat, c.links@.len()));
            assert(out@ == dep_document(
                scope,
                top,
                fold,
                bvs(c.nodes@),
                lvs(c.links@),
                texts(c.in_cycle@),
                c.nodes@.len(),
                c.links@.len(),
                u.cycles as nat,
                u.mutual_outside_cycles as nat,
                census_text(fold, fs.len(), c.nodes@.len(), c.unfoldable as nat, c.file_edges as nat, c.links@.len()),
                erased@,
            ));
        }
        out
    } else {
        let links = unit_links(u);
        let out = render(scope, top, fold, &files, &links, &u.cycle_files, u.nodes.len(), u.edges.len(), u.cycles, u.mutual_outside_cycles, "", erased);
        proof {
            reveal_strlit("");
            assert(""@ =~= Seq::<char>::empty());
        }
        out
    }
}

/// The dependency domain: a run's file import graph as a mermaid flowchart. `erased` is the
/// engine's sentence on the imports it subtracts before cycle detection, which the picture quotes
/// when two files import each other outside every reported cycle.
pub fn project(trees: &Vec<DepTree>, scope: Option<&str>, top: usize, fold: Fold, erased: &str) -> (r: String)
    requires
        fold.valid(),
    ensures
        exists|u: DepUniverse| universe_of(trees@, u) && #[trigger] dep_picture(u, scope, top, fold, erased@, r@),
{
    let u = collect(trees);
    let out = draw(&u, scope, top, fold, erased);
    proof {
        assert(universe_of(trees@, u) && dep_picture(u, scope, top, fold, erased@, out@));
    }
    out
}

} // verus!
