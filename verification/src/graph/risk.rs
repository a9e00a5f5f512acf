//! The risk domain: the run's blast-radius hubs and extraction seams, in engine order, each list
//! filtered by `--scope` and truncated (never re-sorted) to `--top`, with an arrow from a seam to
//! each hub it contains.
use vstd::prelude::*;

use super::label::{push_label, qualified, swap_quotes};
use crate::output::finding::text_or_empty;
use crate::text::{dec, is_prefix, owned, push_dec, push_dec_wide, push_str, push_usize, starts_with};

verus! {

broadcast use vstd::seq_lib::group_seq_properties;

/// One row of a tree's `critical` list.
pub struct CriticalRow {
    pub path: Option<String>,
    pub blast_radius: Option<u64>,
    pub loc: Option<u64>,
}

/// One row of a tree's `seams` list.
pub struct SeamRow {
    pub folder: Option<String>,
    pub files: Option<u64>,
    pub boundary_edges: Option<u64>,
}

/// What the risk domain reads of one analyzed tree.
pub struct RiskTree {
    pub source_id: Option<String>,
    pub has_scores: bool,
    pub critical: Vec<CriticalRow>,
    pub seams: Vec<SeamRow>,
}

/// A hub: (path, blast radius, lines, source).
pub type HubV = (Seq<char>, u64, u64, Seq<char>);

/// A seam: (folder, files, boundary edges, source).
pub type SeamV = (Seq<char>, u64, u64, Seq<char>);

/// A count the engine did not give reads as zero.
pub open spec fn or_zero(n: Option<u64>) -> u64 {
    match n {
        Some(v) => v,
        None => 0,
    }
}

/// The hubs of the first `n` critical rows of a tree from source `src`.
pub open spec fn tree_hubs(rows: Seq<CriticalRow>, src: Seq<char>, n: int) -> Seq<HubV>
    decreases n,
{
    if n <= 0 {
        Seq::empty()
    } else {
        let r = tree_hubs(rows, src, n - 1);
        match rows[n - 1].path {
            Some(p) => r.push((p@, or_zero(rows[n - 1].blast_radius), or_zero(rows[n - 1].loc), src)),
            None => r,
        }
    }
}

/// The seams of the first `n` seam rows of a tree from source `src`.
pub open spec fn tree_seams(rows: Seq<SeamRow>, src: Seq<char>, n: int) -> Seq<SeamV>
    decreases n,
{
    if n <= 0 {
        Seq::empty()
    } else {
        let r = tree_seams(rows, src, n - 1);
        match rows[n - 1].folder {
            Some(f) => r.push((f@, or_zero(rows[n - 1].files), or_zero(rows[n - 1].boundary_edges), src)),
            None => r,
        }
    }
}

/// Every hub of the first `k` trees, in engine order.
pub open spec fn all_hubs(trees: Seq<RiskTree>, k: int) -> Seq<HubV>
    decreases k,
{
    if k <= 0 {
        Seq::empty()
    } else {
        let t = trees[k - 1];
        all_hubs(trees, k - 1) + tree_hubs(t.critical@, text_or_empty(t.source_id), t.critical@.len() as int)
    }
}

/// Every seam of the first `k` trees, in engine order.
pub open spec fn all_seams(trees: Seq<RiskTree>, k: int) -> Seq<SeamV>
    decreases k,
{
    if k <= 0 {
        Seq::empty()
    } else {
        let t = trees[k - 1];
        all_seams(trees, k - 1) + tree_seams(t.seams@, text_or_empty(t.source_id), t.seams@.len() as int)
    }
}

/// How many of the first `k` trees computed scores.
pub open spec fn scored(trees: Seq<RiskTree>, k: int) -> nat
    decreases k,
{
    if k <= 0 {
        0
    } else {
        scored(trees, k - 1) + if trees[k - 1].has_scores {
            1nat
        } else {
            0nat
        }
    }
}

/// A row survives `--scope` when its source or its path starts with the prefix.
pub open spec fn keeps(scope: Option<&str>, source: Seq<char>, path: Seq<char>) -> bool {
    match scope {
        None => true,
        Some(p) => is_prefix(p@, source) || is_prefix(p@, path),
    }
}

/// The first `n` of `xs` (hubs or seams) that survive `--scope`, in order.
pub open spec fn scoped(xs: Seq<(Seq<char>, u64, u64, Seq<char>)>, scope: Option<&str>, n: int) -> Seq<(Seq<char>, u64, u64, Seq<char>)>
    decreases n,
{
    if n <= 0 {
        Seq::empty()
    } else {
        let r = scoped(xs, scope, n - 1);
        if keeps(scope, xs[n - 1].3, xs[n - 1].0) {
            r.push(xs[n - 1])
        } else {
            r
        }
    }
}

/// At most `top` of `xs`, from the front.
pub open spec fn capped<A>(xs: Seq<A>, top: usize) -> Seq<A> {
    if xs.len() <= top {
        xs
    } else {
        xs.take(top as int)
    }
}

/// The note that opens the document's second line.
pub const RISK_LEAD: &'static str = "%% zzop graph --domain risk — blast-radius hubs and extraction seams\n";

/// What the picture leaves to the tables, after the score count.
pub const SCORES_TAIL: &'static str = " tree(s) computed them). They are a table of numbers, not a graph; a flowchart of them would be worse than the table. Composite in `zzop analyze`'s architecture.pain.\n";

/// The visible note of a view the cap or scope cut, after its numbers.
pub const PARTIAL_TAIL: &'static str = "). Arrows mean CONTAINMENT, not imports — use --domain dep for import direction.";

/// The visible note of a run that computed neither hubs nor seams.
pub const NO_RISK: &'static str = "  zzopEmpty[\"No hubs or seams: this run computed none. Both need git signals — an analysis with git collection off produces neither, which is NOT the same as a repo with no risk.\"]\n";

/// ` | --scope p` when a scope is set.
pub open spec fn scope_suffix(scope: Option<&str>) -> Seq<char> {
    match scope {
        Some(p) => " | --scope "@ + p@,
        None => Seq::empty(),
    }
}

/// The statement for seam `i`.
pub open spec fn seam_line(multi: bool, i: nat, s: SeamV) -> Seq<char> {
    "  s"@ + dec(i) + "[[\""@ + swap_quotes(qualified(multi, s.3, s.0)) + "<br/>"@ + dec(s.1 as nat) + " files, "@
        + dec(s.2 as nat) + " boundary edges\"]]\n"@
}

/// The statement for hub `i`.
pub open spec fn hub_line(multi: bool, i: nat, h: HubV) -> Seq<char> {
    "  h"@ + dec(i) + "[[\""@ + swap_quotes(qualified(multi, h.3, h.0)) + "<br/>blast "@ + dec(h.1 as nat) + " · "@
        + dec(h.2 as nat) + " loc\"]]\n"@
}

/// The statements for the first `n` seams.
pub open spec fn seam_lines(multi: bool, seams: Seq<SeamV>, n: int) -> Seq<char>
    decreases n,
{
    if n <= 0 {
        Seq::empty()
    } else {
        seam_lines(multi, seams, n - 1) + seam_line(multi, (n - 1) as nat, seams[n - 1])
    }
}

/// The statements for the first `n` hubs.
pub open spec fn hub_lines(multi: bool, hubs: Seq<HubV>, n: int) -> Seq<char>
    decreases n,
{
    if n <= 0 {
        Seq::empty()
    } else {
        hub_lines(multi, hubs, n - 1) + hub_line(multi, (n - 1) as nat, hubs[n - 1])
    }
}

/// Seam `s` contains hub `h`: same tree, and the hub's path lies under the seam's folder.
pub open spec fn contains(s: SeamV, h: HubV) -> bool {
    s.3 == h.3 && is_prefix(s.0 + "/"@, h.0)
}

/// The containment arrows into hub `hi` from the first `n` seams.
pub open spec fn arrows_into(seams: Seq<SeamV>, hi: nat, h: HubV, n: int) -> Seq<char>
    decreases n,
{
    if n <= 0 {
        Seq::empty()
    } else {
        arrows_into(seams, hi, h, n - 1) + if contains(seams[n - 1], h) {
            "  s"@ + dec((n - 1) as nat) + " --> h"@ + dec(hi) + "\n"@
        } else {
            Seq::empty()
        }
    }
}

/// The containment arrows of the first `n` hubs.
pub open spec fn arrows(seams: Seq<SeamV>, hubs: Seq<HubV>, n: int) -> Seq<char>
    decreases n,
{
    if n <= 0 {
        Seq::empty()
    } else {
        arrows(seams, hubs, n - 1) + arrows_into(seams, (n - 1) as nat, hubs[n - 1], seams.len() as int)
    }
}

/// The risk picture of a run.
pub open spec fn risk_document(trees: Seq<RiskTree>, scope: Option<&str>, top: usize, score_count: usize) -> Seq<char> {
    let multi = trees.len() > 1;
    let all_h = all_hubs(trees, trees.len() as int);
    let all_s = all_seams(trees, trees.len() as int);
    let sh = scoped(all_h, scope, all_h.len() as int);
    let ss = scoped(all_s, scope, all_s.len() as int);
    let hubs = capped(sh, top);
    let seams = capped(ss, top);
    let dropped = (sh.len() - hubs.len()) + (ss.len() - seams.len());
    let note = if dropped == 0 && scope is None {
        "complete: all "@ + dec(all_h.len()) + " hubs and "@ + dec(all_s.len()) + " seams drawn"@
    } else {
        "PARTIAL VIEW: "@ + dec(hubs.len()) + " of "@ + dec(sh.len()) + " hubs and "@ + dec(seams.len()) + " of "@ + dec(
            ss.len(),
        ) + " seams drawn ("@ + dec(dropped as nat) + " dropped by --top "@ + dec(top as nat) + PARTIAL_TAIL@
    };
    RISK_LEAD@ + "%% hubs: drawn "@ + dec(hubs.len()) + " / in-scope "@ + dec(sh.len()) + " / total "@ + dec(all_h.len())
        + " | seams: drawn "@ + dec(seams.len()) + " / in-scope "@ + dec(ss.len()) + " / total "@ + dec(all_s.len())
        + "\n"@ + "%% per-kind cap --top "@ + dec(top as nat) + scope_suffix(scope) + "\n"@
        + "%% NOT drawn: the "@ + dec(score_count as nat) + " structural health scores ("@ + dec(
        scored(trees, trees.len() as int),
    ) + SCORES_TAIL@ + "flowchart TD\n"@ + seam_lines(multi, seams, seams.len() as int) + hub_lines(
        multi,
        hubs,
        hubs.len() as int,
    ) + arrows(seams, hubs, hubs.len() as int) + "  zzopNote[\""@ + note + "\"]\n"@ + (if hubs.len() == 0
        && seams.len() == 0 {
        NO_RISK@
    } else {
        Seq::empty()
    })
}

/// A drawn hub or seam: name, two numbers, source.
pub struct Item {
    pub name: String,
    pub first: u64,
    pub second: u64,
    pub source: String,
}

/// The view of an item.
pub open spec fn iv(x: Item) -> (Seq<char>, u64, u64, Seq<char>) {
    (x.name@, x.first, x.second, x.source@)
}

/// The views of a list of items.
pub open spec fn ivs(xs: Seq<Item>) -> Seq<(Seq<char>, u64, u64, Seq<char>)> {
    xs.map_values(|x: Item| iv(x))
}

fn number(n: Option<u64>) -> (r: u64)
    ensures
        r == or_zero(n),
{
    match n {
        Some(v) => v,
        None => 0,
    }
}

fn source_text(t: &RiskTree) -> (r: String)
    ensures
        r@ == text_or_empty(t.source_id),
{
    match &t.source_id {
        Some(s) => owned(s.as_str()),
        None => String::new(),
    }
}

fn keeps_exec(scope: Option<&str>, source: &str, path: &str) -> (r: bool)
    ensures
        r == keeps(scope, source@, path@),
{
    match scope {
        None => true,
        Some(p) => starts_with(source, p) || starts_with(path, p),
    }
}

/// Every hub and every seam of the run, in engine order, with how many trees computed scores.
fn gather(trees: &Vec<RiskTree>) -> (r: (Vec<Item>, Vec<Item>, usize))
    ensures
        ivs(r.0@) == all_hubs(trees@, trees@.len() as int),
        ivs(r.1@) == all_seams(trees@, trees@.len() as int),
        r.2 == scored(trees@, trees@.len() as int),
{
    let mut hubs: Vec<Item> = Vec::new();
    let mut seams: Vec<Item> = Vec::new();
    let mut with_scores: usize = 0;
    let mut k: usize = 0;
    while k < trees.len()
        invariant
            k <= trees@.len(),
            ivs(hubs@) == all_hubs(trees@, k as int),
            ivs(seams@) == all_seams(trees@, k as int),
            with_scores == scored(trees@, k as int),
            with_scores <= k,
        decreases trees@.len() - k,
    {
        let t = &trees[k];
        let src = source_text(t);
        let ghost h0 = ivs(hubs@);
        let mut j: usize = 0;
        while j < t.critical.len()
            invariant
                j <= t.critical@.len(),
                src@ == text_or_empty(t.source_id),
                ivs(hubs@) == h0 + tree_hubs(t.critical@, src@, j as int),
            decreases t.critical@.len() - j,
        {
            let row = &t.critical[j];
            match &row.path {
                Some(p) => {
                    let ghost before = hubs@;
                    hubs.push(Item { name: owned(p.as_str()), first: number(row.blast_radius), second: number(row.loc), source: owned(src.as_str()) });
                    proof {
                        assert(ivs(hubs@) =~= ivs(before).push(iv(hubs@.last())));
                    }
                },
                None => {},
            }
            proof {
                assert(ivs(hubs@) =~= h0 + tree_hubs(t.critical@, src@, j + 1));
            }
            j = j + 1;
        }
        let ghost s0 = ivs(seams@);
        let mut j: usize = 0;
        while j < t.seams.len()
            invariant
                j <= t.seams@.len(),
                src@ == text_or_empty(t.source_id),
                ivs(seams@) == s0 + tree_seams(t.seams@, src@, j as int),
            decreases t.seams@.len() - j,
        {
            let row = &t.seams[j];
            match &row.folder {
                Some(f) => {
                    let ghost before = seams@;
                    seams.push(Item { name: owned(f.as_str()), first: number(row.files), second: number(row.boundary_edges), source: owned(src.as_str()) });
                    proof {
                        assert(ivs(seams@) =~= ivs(before).push(iv(seams@.last())));
                    }
                },
                None => {},
            }
            proof {
                assert(ivs(seams@) =~= s0 + tree_seams(t.seams@, src@, j + 1));
            }
            j = j + 1;
        }
        if t.has_scores {
            with_scores = with_scores + 1;
        }
        k = k + 1;
    }
    (hubs, seams, with_scores)
}

/// The items that survive `--scope`, in order, and how many did.
fn filter_scope(xs: Vec<Item>, scope: Option<&str>) -> (r: Vec<Item>)
    ensures
        ivs(r@) == scoped(ivs(xs@), scope, xs@.len() as int),
{
    let ghost v = ivs(xs@);
    let mut out: Vec<Item> = Vec::new();
    let mut rest = xs;
    let ghost orig = rest@;
    let mut i: usize = 0;
    let n = rest.len();
    while i < n
        invariant
            n == orig.len(),
            i <= n,
            v == ivs(orig),
            rest@ == orig.skip(i as int),
            ivs(out@) == scoped(v, scope, i as int),
        decreases n - i,
    {
        let x = rest.remove(0);
        proof {
            assert(x == orig[i as int]);
            assert(rest@ =~= orig.skip(i + 1));
            assert(v[i as int] == iv(x));
        }
        if keeps_exec(scope, x.source.as_str(), x.name.as_str()) {
            let ghost before = out@;
            out.push(x);
            proof {
                assert(ivs(out@) =~= ivs(before).push(iv(x)));
            }
        }
        i = i + 1;
    }
    out
}

fn cap(xs: Vec<Item>, top: usize) -> (r: Vec<Item>)
    ensures
        ivs(r@) == capped(ivs(xs@), top),
{
    let mut v = xs;
    if v.len() > top {
        v.truncate(top);
        proof {
            assert(ivs(v@) =~= ivs(xs@).take(top as int));
        }
    }
    v
}

fn push_seam_lines(out: &mut String, multi: bool, seams: &Vec<Item>)
    ensures
        final(out)@ == old(out)@ + seam_lines(multi, ivs(seams@), seams@.len() as int),
{
    let ghost start = out@;
    let mut i: usize = 0;
    while i < seams.len()
        invariant
            i <= seams@.len(),
            out@ == start + seam_lines(multi, ivs(seams@), i as int),
        decreases seams@.len() - i,
    {
        let s = &seams[i];
        let mut line = owned("  s");
        push_usize(&mut line, i);
        push_str(&mut line, "[[\"");
        push_label(&mut line, multi, s.source.as_str(), s.name.as_str());
        push_str(&mut line, "<br/>");
        push_dec(&mut line, s.first);
        push_str(&mut line, " files, ");
        push_dec(&mut line, s.second);
        push_str(&mut line, " boundary edges\"]]\n");
        proof {
            assert(ivs(seams@)[i as int] == iv(*s));
            assert(line@ == seam_line(multi, i as nat, iv(*s)));
        }
        push_str(out, line.as_str());
        proof {
            assert(out@ =~= start + seam_lines(multi, ivs(seams@), i + 1));
        }
        i = i + 1;
    }
}

fn push_hub_lines(out: &mut String, multi: bool, hubs: &Vec<Item>)
    ensures
        final(out)@ == old(out)@ + hub_lines(multi, ivs(hubs@), hubs@.len() as int),
{
    let ghost start = out@;
    let mut i: usize = 0;
    while i < hubs.len()
        invariant
            i <= hubs@.len(),
            out@ == start + hub_lines(multi, ivs(hubs@), i as int),
        decreases hubs@.len() - i,
    {
        let h = &hubs[i];
        let mut line = owned("  h");
        push_usize(&mut line, i);
        push_str(&mut line, "[[\"");
        push_label(&mut line, multi, h.source.as_str(), h.name.as_str());
        push_str(&mut line, "<br/>blast ");
        push_dec(&mut line, h.first);
        push_str(&mut line, " · ");
        push_dec(&mut line, h.second);
        push_str(&mut line, " loc\"]]\n");
        proof {
            assert(ivs(hubs@)[i as int] == iv(*h));
            assert(line@ == hub_line(multi, i as nat, iv(*h)));
        }
        push_str(out, line.as_str());
        proof {
            assert(out@ =~= start + hub_lines(multi, ivs(hubs@), i + 1));
        }
        i = i + 1;
    }
}

fn push_arrows(out: &mut String, seams: &Vec<Item>, hubs: &Vec<Item>)
    ensures
        final(out)@ == old(out)@ + arrows(ivs(seams@), ivs(hubs@), hubs@.len() as int),
{
    let ghost start = out@;
    let ghost sv = ivs(seams@);
    let ghost hv = ivs(hubs@);
    let mut hi: usize = 0;
    while hi < hubs.len()
        invariant
            hi <= hubs@.len(),
            sv == ivs(seams@),
            hv == ivs(hubs@),
            out@ == start + arrows(sv, hv, hi as int),
        decreases hubs@.len() - hi,
    {
        let h = &hubs[hi];
        let ghost mid = out@;
        let mut si: usize = 0;
        while si < seams.len()
            invariant
                si <= seams@.len(),
                hi < hubs@.len(),
                sv == ivs(seams@),
                hv == ivs(hubs@),
                *h == hubs@[hi as int],
                out@ == mid + arrows_into(sv, hi as nat, hv[hi as int], si as int),
            decreases seams@.len() - si,
        {
            let s = &seams[si];
            let mut folder = owned(s.name.as_str());
            push_str(&mut folder, "/");
            proof {
                assert(sv[si as int] == iv(*s));
                assert(hv[hi as int] == iv(*h));
            }
            if crate::text::str_eq(h.source.as_str(), s.source.as_str()) && starts_with(h.name.as_str(), folder.as_str()) {
                let mut line = owned("  s");
                push_usize(&mut line, si);
                push_str(&mut line, " --> h");
                push_usize(&mut line, hi);
                push_str(&mut line, "\n");
                push_str(out, line.as_str());
            }
            proof {
                assert(out@ =~= mid + arrows_into(sv, hi as nat, hv[hi as int], si + 1));
            }
            si = si + 1;
        }
        proof {
            assert(out@ =~= start + arrows(sv, hv, hi + 1));
        }
        hi = hi + 1;
    }
}

/// The risk domain: a run's hubs and seams as a mermaid flowchart. `score_count` is how many
/// structural health scores the engine computes, which the header names as left out.
pub fn project(trees: &Vec<RiskTree>, scope: Option<&str>, top: usize, score_count: usize) -> (r: String)
    ensures
        r@ == risk_document(trees@, scope, top, score_count),
{
    let multi = trees.len() > 1;
    let (all_h, all_s, with_scores) = gather(trees);
    let total_hubs = all_h.len();
    let total_seams = all_s.len();
    let sh = filter_scope(all_h, scope);
    let ss = filter_scope(all_s, scope);
    let scoped_hubs = sh.len();
    let scoped_seams = ss.len();
    proof {
        assert(scoped(ivs(all_h@), scope, total_hubs as int).len() == scoped_hubs);
    }
    let hubs = cap(sh, top);
    let seams = cap(ss, top);
    let mut out = owned(RISK_LEAD);
    push_str(&mut out, "%% hubs: drawn ");
    push_usize(&mut out, hubs.len());
    push_str(&mut out, " / in-scope ");
    push_usize(&mut out, scoped_hubs);
    push_str(&mut out, " / total ");
    push_usize(&mut out, total_hubs);
    push_str(&mut out, " | seams: drawn ");
    push_usize(&mut out, seams.len());
    push_str(&mut out, " / in-scope ");
    push_usize(&mut out, scoped_seams);
    push_str(&mut out, " / total ");
    push_usize(&mut out, total_seams);
    push_str(&mut out, "\n");
    push_str(&mut out, "%% per-kind cap --top ");
    push_usize(&mut out, top);
    let mut suffix = String::new();
    match scope {
        Some(p) => {
            push_str(&mut suffix, " | --scope ");
            push_str(&mut suffix, p);
        },
        None => {},
    }
    push_str(&mut out, suffix.as_str());
    push_str(&mut out, "\n");
    push_str(&mut out, "%% NOT drawn: the ");
    push_usize(&mut out, score_count);
    push_str(&mut out, " structural health scores (");
    push_usize(&mut out, with_scores);
    push_str(&mut out, SCORES_TAIL);
    push_str(&mut out, "flowchart TD\n");
    push_seam_lines(&mut out, multi, &seams);
    push_hub_lines(&mut out, multi, &hubs);
    push_arrows(&mut out, &seams, &hubs);
    proof {
        assert(ivs(hubs@).len() == hubs@.len());
        assert(ivs(sh@).len() == sh@.len());
        assert(ivs(seams@).len() == seams@.len());
        assert(ivs(ss@).len() == ss@.len());
    }
    let dropped: u128 = (scoped_hubs - hubs.len()) as u128 + (scoped_seams - seams.len()) as u128;
    let mut note = String::new();
    if dropped == 0 && scope.is_none() {
        push_str(&mut note, "complete: all ");
        push_usize(&mut note, total_hubs);
        push_str(&mut note, " hubs and ");
        push_usize(&mut note, total_seams);
        push_str(&mut note, " seams drawn");
    } else {
        push_str(&mut note, "PARTIAL VIEW: ");
        push_usize(&mut note, hubs.len());
        push_str(&mut note, " of ");
        push_usize(&mut note, scoped_hubs);
        push_str(&mut note, " hubs and ");
        push_usize(&mut note, seams.len());
        push_str(&mut note, " of ");
        push_usize(&mut note, scoped_seams);
        push_str(&mut note, " seams drawn (");
        push_dec_wide(&mut note, dropped);
        push_str(&mut note, " dropped by --top ");
        push_usize(&mut note, top);
        push_str(&mut note, PARTIAL_TAIL);
    }
    push_str(&mut out, "  zzopNote[\"");
    push_str(&mut out, note.as_str());
    push_str(&mut out, "\"]\n");
    if hubs.len() == 0 && seams.len() == 0 {
        push_str(&mut out, NO_RISK);
    }
    proof {
        assert(suffix@ =~= scope_suffix(scope));
        assert(out@ =~= risk_document(trees@, scope, top, score_count));
    }
    out
}


/// Without `--scope`, every hub or seam is in scope.
proof fn lemma_unscoped_keeps_all(xs: Seq<(Seq<char>, u64, u64, Seq<char>)>, n: int)
    requires
        0 <= n <= xs.len(),
    ensures
        scoped(xs, None, n) == xs.take(n),
    decreases n,
{
    if n > 0 {
        lemma_unscoped_keeps_all(xs, n - 1);
        assert(xs.take(n - 1).push(xs[n - 1]) =~= xs.take(n));
    } else {
        assert(xs.take(0) =~= Seq::<(Seq<char>, u64, u64, Seq<char>)>::empty());
    }
}

proof fn lemma_ends_with(a: Seq<char>, t: Seq<char>)
    ensures
        crate::text::is_suffix(t, a + t),
{
    assert((a + t).subrange(a.len() as int, (a + t).len() as int) =~= t);
}

/// A document ending in a note `head + tail`, the closing bracket and an optional empty-run note
/// ends in `tail` and what follows it.
proof fn lemma_closing(pre: Seq<char>, head: Seq<char>, tail: Seq<char>, close: Seq<char>, x: Seq<char>)
    requires
        x.len() == 0 || x == NO_RISK@,
    ensures
        crate::text::is_suffix(tail + close, pre + (head + tail) + close + x) || crate::text::is_suffix(
            tail + close + NO_RISK@,
            pre + (head + tail) + close + x,
        ),
{
    if x.len() == 0 {
        assert(pre + (head + tail) + close + x =~= (pre + head) + (tail + close));
        lemma_ends_with(pre + head, tail + close);
    } else {
        assert(pre + (head + tail) + close + x =~= (pre + head) + (tail + close + NO_RISK@));
        lemma_ends_with(pre + head, tail + close + NO_RISK@);
    }
}

/// The note claiming the whole run.
pub open spec fn complete_note(hubs: nat, seams: nat) -> Seq<char> {
    "complete: all "@ + dec(hubs) + " hubs and "@ + dec(seams) + " seams drawn"@
}

/// The picture's closing note says `complete: all N hubs and M seams drawn`, with N and M the
/// run's totals, exactly when no `--scope` is set and `--top` leaves every hub and every seam of
/// the run drawn; in every other case — a scope set, or the cap dropping anything — it is the
/// PARTIAL VIEW note.
#[verifier::spinoff_prover]
#[verifier::rlimit(60)]
pub proof fn law_risk_note_claims_completeness_only_when_everything_is_drawn(
    trees: Seq<RiskTree>,
    scope: Option<&str>,
    top: usize,
    score_count: usize,
)
    ensures
        ({
            let d = risk_document(trees, scope, top, score_count);
            let nh = all_hubs(trees, trees.len() as int).len();
            let ns = all_seams(trees, trees.len() as int).len();
            let close = "\"]\n"@;
            if scope is None && nh <= top && ns <= top {
                crate::text::is_suffix(complete_note(nh, ns) + close, d) || crate::text::is_suffix(
                    complete_note(nh, ns) + close + NO_RISK@,
                    d,
                )
            } else {
                crate::text::is_suffix(PARTIAL_TAIL@ + close, d) || crate::text::is_suffix(PARTIAL_TAIL@ + close + NO_RISK@, d)
            }
        }),
{

    let multi = trees.len() > 1;
    let all_h = all_hubs(trees, trees.len() as int);
    let all_s = all_seams(trees, trees.len() as int);
    let sh = scoped(all_h, scope, all_h.len() as int);
    let ss = scoped(all_s, scope, all_s.len() as int);
    let hubs = capped(sh, top);
    let seams = capped(ss, top);
    let dropped = (sh.len() - hubs.len()) + (ss.len() - seams.len());
    let pre = RISK_LEAD@ + "%% hubs: drawn "@ + dec(hubs.len()) + " / in-scope "@ + dec(sh.len()) + " / total "@ + dec(all_h.len())
        + " | seams: drawn "@ + dec(seams.len()) + " / in-scope "@ + dec(ss.len()) + " / total "@ + dec(all_s.len())
        + "\n"@ + "%% per-kind cap --top "@ + dec(top as nat) + scope_suffix(scope) + "\n"@
        + "%% NOT drawn: the "@ + dec(score_count as nat) + " structural health scores ("@ + dec(
        scored(trees, trees.len() as int),
    ) + SCORES_TAIL@ + "flowchart TD\n"@ + seam_lines(multi, seams, seams.len() as int) + hub_lines(
        multi,
        hubs,
        hubs.len() as int,
    ) + arrows(seams, hubs, hubs.len() as int) + "  zzopNote[\""@;
    let close = "\"]\n"@;
    let d = risk_document(trees, scope, top, score_count);
    let x = if hubs.len() == 0 && seams.len() == 0 {
        NO_RISK@
    } else {
        Seq::empty()
    };
    if scope is None {
        lemma_unscoped_keeps_all(all_h, all_h.len() as int);
        lemma_unscoped_keeps_all(all_s, all_s.len() as int);
        assert(all_h.take(all_h.len() as int) =~= all_h);
        assert(all_s.take(all_s.len() as int) =~= all_s);
    }
    if scope is None && all_h.len() <= top && all_s.len() <= top {
        let note = complete_note(all_h.len(), all_s.len());
        assert(d == pre + note + close + x);
        assert(note =~= Seq::<char>::empty() + note);
        lemma_closing(pre, Seq::empty(), note, close, x);
    } else {
        let head = "PARTIAL VIEW: "@ + dec(hubs.len()) + " of "@ + dec(sh.len()) + " hubs and "@ + dec(seams.len()) + " of "@ + dec(
            ss.len(),
        ) + " seams drawn ("@ + dec(dropped as nat) + " dropped by --top "@ + dec(top as nat);
        assert(d == pre + (head + PARTIAL_TAIL@) + close + x);
        lemma_closing(pre, head, PARTIAL_TAIL@, close, x);
    }
}


/// With `--scope p`, a hub or seam whose tree id or path starts with `p` is kept: when every one of
/// the first `n` does, the scoped list is those `n` unchanged; and every kept one starts so.
pub proof fn law_scope_keeps_rows_by_tree_or_path(xs: Seq<(Seq<char>, u64, u64, Seq<char>)>, p: &str, n: int)
    requires
        0 <= n <= xs.len(),
    ensures
        (forall|i: int| 0 <= i < n ==> is_prefix(p@, (#[trigger] xs[i]).3) || is_prefix(p@, xs[i].0)) ==> scoped(
            xs,
            Some(p),
            n,
        ) == xs.take(n),
        forall|q: int|
            0 <= q < scoped(xs, Some(p), n).len() ==> is_prefix(p@, (#[trigger] scoped(xs, Some(p), n)[q]).3) || is_prefix(
                p@,
                scoped(xs, Some(p), n)[q].0,
            ),
    decreases n,
{
    if n > 0 {
        law_scope_keeps_rows_by_tree_or_path(xs, p, n - 1);
        let r = scoped(xs, Some(p), n - 1);
        if forall|i: int| 0 <= i < n ==> is_prefix(p@, (#[trigger] xs[i]).3) || is_prefix(p@, xs[i].0) {
            assert(forall|i: int| 0 <= i < n - 1 ==> is_prefix(p@, (#[trigger] xs[i]).3) || is_prefix(p@, xs[i].0));
            assert(is_prefix(p@, xs[n - 1].3) || is_prefix(p@, xs[n - 1].0));
            assert(xs.take(n - 1).push(xs[n - 1]) =~= xs.take(n));
        }
        assert forall|q: int| 0 <= q < scoped(xs, Some(p), n).len() implies is_prefix(p@, (#[trigger] scoped(xs, Some(p), n)[q]).3)
            || is_prefix(p@, scoped(xs, Some(p), n)[q].0) by {
            if q < r.len() {
                assert(scoped(xs, Some(p), n)[q] == r[q]);
            }
        }
    } else {
        assert(xs.take(0) =~= Seq::<(Seq<char>, u64, u64, Seq<char>)>::empty());
    }
}

} // verus!
